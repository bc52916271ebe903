//! The MPC engine of one party: builds circuits of AND gates layer by layer, then runs the
//! layers from the deepest one up.
use vstd::prelude::*;
use vstd::arithmetic::power2::{
    lemma2_to64, lemma_pow2_adds, lemma_pow2_pos, lemma_pow2_strictly_increases, pow2,
};
use vstd::bits::{
    lemma_u32_low_bits_mask_is_mod, lemma_u32_shl_is_mul, lemma_u32_shr_is_div,
    lemma_usize_shl_is_mul, low_bits_mask,
};
use crate::cor_rnd::beaver::BeaverProvider;
use crate::cor_rnd::dabit::DaBitProvider;
use crate::cor_rnd::sharing::BooleanValue;
use crate::prc::commitment::{log_sum, point_sum, ristretto_log, Commitment};
use crate::prc::layer::{and_ops, dest_start, dest_stream, op_applied, op_chain, ops_applied, op_dest, op_extent, op_value, src_bit, stream_bits, src_buf, src_len, src_ok, Layer, LayerDest, LayerSource, LayerState, MpcOperation, Ticket};
use crate::simd_array::bit_array::{bits_fit, lemma_set_bit_bits, BitArray};
use crate::simd_array::bit_spec::{ceil8, lemma_ceil8, seq_bit, xor_bools};
use crate::prc::util::{lemma_xor_bounded, xor_u32s};

verus! {

/// `l` is a new layer `num` of a party: no gates, no operations, open for tickets.
pub open spec fn fresh_layer(l: Layer, num: nat, is_const: bool) -> bool {
    &&& l.wf()
    &&& l.num() == num
    &&& l.is_const() == is_const
    &&& l.size() == 0
    &&& l.phase() == LayerState::Ticketing
    &&& l.ops() == Seq::<MpcOperation>::empty()
}

/// The shape of a one-hot encoding of an `bits`-bit share `idx` requested on layer `layer`:
/// for one bit, the plain pair (not idx, idx), the constant party doing the negation; for
/// more bits, the output of `2^bits` gates of that layer.
pub open spec fn ohe_src(src: LayerSource, layer: nat, bits: nat, is_const: bool, idx: nat) -> bool {
    if bits == 1 {
        src matches LayerSource::Input(d) && d.wf() && d.nbits() == 2 && d.bit(0) == ((idx != 0) != is_const)
            && d.bit(1) == (idx != 0)
    } else {
        src matches LayerSource::TakeZ(t) && t.layer() == layer && t.wf() && t.end() == t.st() + pow2(bits)
    }
}

/// The operations of a layer after requesting the one-hot encoding of a `bits`-bit share
/// `idx` with the gates of ticket `t`: the encoding `ls` of the low half of the bits,
/// replicated, and the encoding `hs` of the high half, bit-expanded, both made on layer
/// `next`, are written to the X and Y streams of the gates.
pub open spec fn ohe_step(
    before: Seq<MpcOperation>,
    after: Seq<MpcOperation>,
    t: Ticket,
    next: nat,
    bits: nat,
    is_const: bool,
    idx: nat,
    ls: LayerSource,
    hs: LayerSource,
) -> bool {
    let lo = low_bits(bits);
    let hi = (bits - lo) as nat;
    &&& after == before.push(
        MpcOperation::Replicate { n: pow2(hi) as usize, inp: ls, out: LayerDest::Relay { ticket: t, stream: 0u8 } },
    ).push(MpcOperation::BitExpand { n: pow2(lo) as usize, inp: hs, out: LayerDest::Relay { ticket: t, stream: 1u8 } })
    &&& ohe_src(ls, next, lo, is_const, idx % pow2(lo))
    &&& ohe_src(hs, next, hi, is_const, idx / pow2(lo))
}

/// `ops[k]` and `ops[k + 1]` fill the X and Y streams of the gates of ticket `t` with the
/// encoding of `lo` low bits, replicated `2^hi` times, and that of `hi` high bits, each bit
/// expanded `2^lo` times.
pub open spec fn ohe_pair(ops: Seq<MpcOperation>, k: int, t: Ticket, lo: nat, hi: nat) -> bool {
    &&& 0 <= k && k + 1 < ops.len()
    &&& ops[k] matches MpcOperation::Replicate { n, inp, out } && n == pow2(hi) && out == LayerDest::Relay {
        ticket: t,
        stream: 0u8,
    }
    &&& ops[k + 1] matches MpcOperation::BitExpand { n, inp, out } && n == pow2(lo) && out == LayerDest::Relay {
        ticket: t,
        stream: 1u8,
    }
}

/// The input of an operation.
pub open spec fn op_input(op: MpcOperation) -> LayerSource {
    match op {
        MpcOperation::Copy { inp, out } => inp,
        MpcOperation::Replicate { n, inp, out } => inp,
        MpcOperation::BitExpand { n, inp, out } => inp,
    }
}

/// The low `lo` bits of `idx`.
pub open spec fn low_part(idx: nat, lo: nat) -> nat {
    idx % pow2(lo)
}

/// The bits of `idx` above the low `lo` ones.
pub open spec fn high_part(idx: nat, lo: nat) -> nat {
    idx / pow2(lo)
}

/// Where the operations of a one-hot encoding stand: nothing for one bit; for more bits the
/// position of the pair of operations in its layer, the first gate of the encoding's ticket,
/// and the places of the encodings of the low and the high bits.
pub ghost enum OhePlaces {
    Plain,
    Split(int, int, Box<OhePlaces>, Box<OhePlaces>),
}

/// `src`, from layer `layer` of the engine `p`, is the one-hot encoding of the `bits`-bit
/// share `idx`, with its operations at `places`: for one bit the plain pair (not idx, idx);
/// for more bits the output of gates of that layer whose X stream the layer fills with the
/// replicated encoding of the low `low_bits(bits)` bits of `idx` and whose Y stream it fills
/// with the bit-expanded encoding of the remaining high bits, both encodings made the same way
/// from the next layer down.
pub open spec fn ohe_placed(
    p: MpcProvider,
    places: OhePlaces,
    src: LayerSource,
    layer: nat,
    bits: nat,
    is_const: bool,
    idx: nat,
) -> bool
    decreases places,
{
    if bits <= 1 {
        ohe_src(src, layer, bits, is_const, idx)
    } else {
        match places {
            OhePlaces::Plain => false,
            OhePlaces::Split(pos, st, low_places, high_places) => {
                let lo = low_bits(bits);
                let hi = (bits - lo) as nat;
                let ops = p.layer_ops(layer as int);
                &&& ohe_src(src, layer, bits, is_const, idx)
                &&& src->TakeZ_0.st() == st
                &&& ohe_pair(ops, pos, src->TakeZ_0, lo, hi)
                &&& ohe_placed(p, *low_places, op_input(ops[pos]), (layer + 1) as nat, lo, is_const, low_part(idx, lo))
                &&& ohe_placed(p, *high_places, op_input(ops[pos + 1]), (layer + 1) as nat, hi, is_const, high_part(idx, lo))
            },
        }
    }
}

/// The ticket an operation writes to.
pub open spec fn op_ticket(op: MpcOperation) -> Ticket {
    op_dest(&op)->Relay_ticket
}

/// The stream an operation writes to.
pub open spec fn op_stream(op: MpcOperation) -> int {
    op_dest(&op)->Relay_stream as int
}

/// `op` writes one of the two input streams of a ticket of layer `layer` that lies within the
/// `size` bytes of gates, and writes no more bits than the ticket has.
pub open spec fn op_laid(op: MpcOperation, layer: nat, size: nat) -> bool {
    &&& op_dest(&op) is Relay
    &&& op_stream(op) < 2
    &&& op_ticket(op).layer() == layer
    &&& op_ticket(op).wf()
    &&& op_ticket(op).end() <= size * 8
    &&& op_extent(&op, None) <= op_ticket(op).end() - op_ticket(op).st()
}

/// An earlier operation `a` and a later one `b` write disjoint gates: the same ticket on
/// different streams, or a ticket that ends where or before the other starts.
pub open spec fn ops_apart(a: MpcOperation, b: MpcOperation) -> bool {
    ||| op_ticket(a) == op_ticket(b) && op_stream(a) != op_stream(b)
    ||| op_ticket(a).end() <= op_ticket(b).st()
}

/// The operations of layer `layer` of `size` bytes each write within their own ticket, and
/// no two of them write the same gate of the same stream.
pub open spec fn ops_laid(ops: Seq<MpcOperation>, layer: nat, size: nat) -> bool {
    &&& forall|i: int| 0 <= i < ops.len() ==> op_laid(#[trigger] ops[i], layer, size)
    &&& forall|i: int, j: int| 0 <= i < j < ops.len() ==> ops_apart(#[trigger] ops[i], #[trigger] ops[j])
}

/// Every layer of the engine has its operations laid out in its tickets.
pub open spec fn layers_laid(m: MpcProvider) -> bool {
    forall|i: int| 0 <= i < m.layers().len() ==> #[trigger] ops_laid(m.layer_ops(i), i as nat, m.layer_size(i))
}

/// Two operations on a new ticket at the end of a laid-out layer keep it laid out.
proof fn lemma_laid_push_pair(ops: Seq<MpcOperation>, layer: nat, size: nat, new_size: nat, x: MpcOperation, y: MpcOperation)
    requires
        ops_laid(ops, layer, size),
        size <= new_size,
        op_laid(x, layer, new_size),
        op_laid(y, layer, new_size),
        op_ticket(x) == op_ticket(y),
        op_stream(x) == 0,
        op_stream(y) == 1,
        op_ticket(x).st() == size * 8,
    ensures
        ops_laid(ops.push(x).push(y), layer, new_size),
{
    let all = ops.push(x).push(y);
    assert forall|i: int| 0 <= i < all.len() implies op_laid(#[trigger] all[i], layer, new_size) by {
        if i < ops.len() {
            assert(all[i] == ops[i]);
            assert(op_laid(ops[i], layer, size));
        }
    }
    assert forall|i: int, j: int| 0 <= i < j < all.len() implies ops_apart(#[trigger] all[i], #[trigger] all[j]) by {
        if j < ops.len() {
            assert(all[i] == ops[i] && all[j] == ops[j]);
        } else if i < ops.len() {
            assert(all[i] == ops[i]);
            assert(op_laid(ops[i], layer, size));
        }
    }
}

/// Layer `i` of `a` has the operations and the size of layer `i` of `b`.
pub open spec fn same_layer(a: MpcProvider, b: MpcProvider, i: int) -> bool {
    a.layer_ops(i) == b.layer_ops(i) && a.layer_size(i) == b.layer_size(i)
}

/// Adding the pair of operations of a one-hot encoding on a new ticket at the end of layer
/// `l` keeps the layers laid out.
proof fn lemma_ohe_step_laid(
    s2: MpcProvider,
    fin: MpcProvider,
    l: int,
    t: Ticket,
    ls: LayerSource,
    hs: LayerSource,
    lo: nat,
    hi: nat,
    bits: nat,
    c: bool,
    idx: nat,
)
    requires
        layers_laid(s2),
        0 <= l < fin.layers().len(),
        forall|i: int| 0 <= i < fin.layers().len() && i != l ==> #[trigger] same_layer(fin, s2, i),
        fin.layer_ops(l) == s2.layer_ops(l).push(
            MpcOperation::Replicate { n: pow2(hi) as usize, inp: ls, out: LayerDest::Relay { ticket: t, stream: 0u8 } },
        ).push(MpcOperation::BitExpand { n: pow2(lo) as usize, inp: hs, out: LayerDest::Relay { ticket: t, stream: 1u8 } }),
        fin.layer_size(l) == s2.layer_size(l) + ceil8(pow2(bits)),
        t.layer() == l,
        t.wf(),
        t.st() == s2.layer_size(l) * 8,
        t.end() == t.st() + pow2(bits),
        pow2(lo) * pow2(hi) == pow2(bits),
        pow2(hi) <= usize::MAX,
        pow2(lo) <= usize::MAX,
        ohe_src(ls, (l + 1) as nat, lo, c, low_part(idx, lo)),
        ohe_src(hs, (l + 1) as nat, hi, c, high_part(idx, lo)),
        lo >= 1,
        hi >= 1,
    ensures
        layers_laid(fin),
{
    let ops2 = s2.layer_ops(l);
    let x = MpcOperation::Replicate { n: pow2(hi) as usize, inp: ls, out: LayerDest::Relay { ticket: t, stream: 0u8 } };
    let y = MpcOperation::BitExpand { n: pow2(lo) as usize, inp: hs, out: LayerDest::Relay { ticket: t, stream: 1u8 } };
    lemma_ceil8(pow2(bits));
    lemma2_to64();
    assert(src_len(&ls, None) == pow2(lo));
    assert(src_len(&hs, None) == pow2(hi));
    assert(pow2(hi) * pow2(lo) == pow2(bits)) by (nonlinear_arith)
        requires
            pow2(lo) * pow2(hi) == pow2(bits),
    ;
    assert(op_laid(x, l as nat, fin.layer_size(l)));
    assert(op_laid(y, l as nat, fin.layer_size(l)));
    if l < s2.layers().len() {
        assert(ops_laid(ops2, l as nat, s2.layer_size(l)));
    } else {
        assert(ops2.len() == 0);
    }
    lemma_laid_push_pair(ops2, l as nat, s2.layer_size(l), fin.layer_size(l), x, y);
    assert forall|i: int| 0 <= i < fin.layers().len() implies #[trigger] ops_laid(fin.layer_ops(i), i as nat, fin.layer_size(i)) by {
        if i != l {
            assert(same_layer(fin, s2, i));
            if i < s2.layers().len() {
                assert(ops_laid(s2.layer_ops(i), i as nat, s2.layer_size(i)));
            }
        }
    }
}

/// The shape of an engine's layers: for each layer, the bytes of gates reserved and the
/// number of operations.
pub open spec fn layer_shape(m: MpcProvider) -> spec_fn(int) -> (nat, nat) {
    |i: int| (m.layer_size(i), m.layer_ops(i).len())
}

/// Where a one-hot encoding of `bits` bits requested on layer `layer` of an engine of shape
/// `shape` puts its operations and tickets, and the shape after it: the encodings of the low
/// and then of the high bits on the next layer, then a ticket of `2^bits` gates at the end
/// of layer `layer` and the pair of operations that fill it after its operations.
pub open spec fn ohe_plan(shape: spec_fn(int) -> (nat, nat), layer: int, bits: nat) -> (OhePlaces, spec_fn(int) -> (nat, nat))
    decreases bits,
{
    if bits <= 1 {
        (OhePlaces::Plain, shape)
    } else {
        let low = ohe_plan(shape, layer + 1, low_bits(bits));
        let high = ohe_plan(low.1, layer + 1, (bits - low_bits(bits)) as nat);
        let s2 = high.1;
        (
            OhePlaces::Split(s2(layer).1 as int, (s2(layer).0 * 8) as int, Box::new(low.0), Box::new(high.0)),
            |i: int|
                if i == layer {
                    (s2(layer).0 + ceil8(pow2(bits)), s2(layer).1 + 2)
                } else {
                    s2(i)
                },
        )
    }
}

/// `src`, from layer `layer` of the engine `p`, is the one-hot encoding of the `bits`-bit
/// share `idx` (`ohe_placed`, wherever its operations stand).
pub open spec fn ohe_encodes(p: MpcProvider, src: LayerSource, layer: nat, bits: nat, is_const: bool, idx: nat) -> bool {
    exists|places: OhePlaces| #[trigger] ohe_placed(p, places, src, layer, bits, is_const, idx)
}

/// A placed one-hot encoding stays one as operations are appended to the layers it uses.
pub proof fn lemma_ohe_placed_grow(
    p: MpcProvider,
    q: MpcProvider,
    places: OhePlaces,
    src: LayerSource,
    layer: nat,
    bits: nat,
    is_const: bool,
    idx: nat,
)
    requires
        ohe_placed(p, places, src, layer, bits, is_const, idx),
        forall|i: int| layer <= i ==> (#[trigger] p.layer_ops(i)).is_prefix_of(q.layer_ops(i)),
    ensures
        ohe_placed(q, places, src, layer, bits, is_const, idx),
    decreases places,
{
    if bits > 1 {
        match places {
            OhePlaces::Plain => {},
            OhePlaces::Split(k, st0, low, high) => {
                let lo = low_bits(bits);
                let hi = (bits - lo) as nat;
                let ops = p.layer_ops(layer as int);
                let qops = q.layer_ops(layer as int);
                assert forall|i: int| layer + 1 <= i implies (#[trigger] p.layer_ops(i)).is_prefix_of(q.layer_ops(i)) by {
                    assert(p.layer_ops(i).is_prefix_of(q.layer_ops(i)));
                }
                assert(ops.is_prefix_of(qops));
                assert(qops[k] == ops[k]);
                assert(qops[k + 1] == ops[k + 1]);
                lemma_ohe_placed_grow(p, q, *low, op_input(ops[k]), (layer + 1) as nat, lo, is_const, low_part(idx, lo));
                lemma_ohe_placed_grow(p, q, *high, op_input(ops[k + 1]), (layer + 1) as nat, hi, is_const, high_part(idx, lo));
            },
        }
    }
}

/// A one-hot encoding stays one as operations are appended to the layers it uses.
pub proof fn lemma_ohe_encodes_grow(
    p: MpcProvider,
    q: MpcProvider,
    src: LayerSource,
    layer: nat,
    bits: nat,
    is_const: bool,
    idx: nat,
)
    requires
        ohe_encodes(p, src, layer, bits, is_const, idx),
        forall|i: int| layer <= i ==> (#[trigger] p.layer_ops(i)).is_prefix_of(q.layer_ops(i)),
    ensures
        ohe_encodes(q, src, layer, bits, is_const, idx),
{
    let places = choose|places: OhePlaces| #[trigger] ohe_placed(p, places, src, layer, bits, is_const, idx);
    lemma_ohe_placed_grow(p, q, places, src, layer, bits, is_const, idx);
}

/// Bits of the low part when a one-hot encoding of `bits` bits is split in two.
pub open spec fn low_bits(bits: nat) -> nat {
    ((bits + 1) / 2) as nat
}

/// The MPC engine of one party.
pub struct MpcProvider {
    beaver_provider: BeaverProvider,
    dabit_provider: DaBitProvider,
    layers: Vec<Layer>,
    party_const: bool,
    output_layer: Option<Layer>,
}

impl MpcProvider {
    /// Whether this party adds the public constants.
    pub closed spec fn is_const(&self) -> bool {
        self.party_const
    }

    /// The layers built so far, layer `i` at index `i`.
    pub closed spec fn layers(&self) -> Seq<Layer> {
        self.layers@
    }

    /// The last layer of the last run, whose gates hold the outputs.
    pub closed spec fn output(&self) -> Option<Layer> {
        self.output_layer
    }

    /// The Beaver triplets.
    pub closed spec fn beaver(&self) -> BeaverProvider {
        self.beaver_provider
    }

    /// The daBits.
    pub closed spec fn dabit(&self) -> DaBitProvider {
        self.dabit_provider
    }

    /// Bytes of gates reserved in layer `i`; 0 for a layer not created yet.
    pub open spec fn layer_size(&self, i: int) -> nat {
        if 0 <= i < self.layers().len() {
            self.layers()[i].size()
        } else {
            0
        }
    }

    /// Operations added to layer `i`; none for a layer not created yet.
    pub open spec fn layer_ops(&self, i: int) -> Seq<MpcOperation> {
        if 0 <= i < self.layers().len() {
            self.layers()[i].ops()
        } else {
            Seq::empty()
        }
    }

    /// The providers are well formed; layer `i` is a well formed layer `i` of this party,
    /// open for tickets.
    pub open spec fn wf(&self) -> bool {
        &&& self.beaver().wf()
        &&& self.dabit().wf()
        &&& self.output() matches Some(l) ==> l.wf()
        &&& forall|i: int|
            0 <= i < self.layers().len() ==> (#[trigger] self.layers()[i]).wf() && self.layers()[i].num() == i
                && self.layers()[i].is_const() == self.is_const() && self.layers()[i].phase() == LayerState::Ticketing
    }

    /// Every layer from `from` on, created or not, can take `extra` more bytes of gates.
    pub open spec fn room(&self, from: int, extra: nat) -> bool {
        forall|i: int| from <= i ==> bits_fit(((#[trigger] self.layer_size(i)) + extra) * 8)
    }

    /// Only the layers differ.
    pub open spec fn same_but_layers(&self, other: &MpcProvider) -> bool {
        &&& self.is_const() == other.is_const()
        &&& self.beaver() == other.beaver()
        &&& self.dabit() == other.dabit()
        &&& self.output() == other.output()
    }

    /// An engine with no layers.
    pub fn new(party_const: bool, beaver_provider: BeaverProvider, dabit_provider: DaBitProvider) -> (r: Self)
        requires
            beaver_provider.wf(),
            dabit_provider.wf(),
        ensures
            r.wf(),
            r.is_const() == party_const,
            r.beaver() == beaver_provider,
            r.dabit() == dabit_provider,
            r.layers().len() == 0,
            r.output() is None,
    {
        MpcProvider { beaver_provider, dabit_provider, layers: Vec::new(), party_const, output_layer: None }
    }

    /// Drops all layers and the output of the last run.
    pub fn clear(&mut self)
        requires
            old(self).wf(),
        ensures
            final(self).wf(),
            final(self).layers().len() == 0,
            final(self).output() is None,
            final(self).is_const() == old(self).is_const(),
            final(self).beaver() == old(self).beaver(),
            final(self).dabit() == old(self).dabit(),
    {
        self.layers.clear();
        self.output_layer = None;
    }

    fn create_new_layer(&mut self)
        requires
            old(self).wf(),
            old(self).layers().len() < usize::MAX,
        ensures
            final(self).wf(),
            final(self).same_but_layers(old(self)),
            final(self).layers().len() == old(self).layers().len() + 1,
            forall|i: int| 0 <= i < old(self).layers().len() ==> #[trigger] final(self).layers()[i] == old(self).layers()[i],
            fresh_layer(final(self).layers().last(), old(self).layers().len() as nat, old(self).is_const()),
    {
        let n = self.layers.len();
        self.layers.push(Layer::new(self.party_const, n));
    }

    /// Layer `layer_id`, created with the layers before it if needed.
    fn get_layer(&mut self, layer_id: usize) -> (r: &mut Layer)
        requires
            old(self).wf(),
            layer_id < usize::MAX,
        ensures
            final(self).same_but_layers(old(self)),
            final(self).layers().len() == if layer_id < old(self).layers().len() {
                old(self).layers().len() as int
            } else {
                layer_id + 1
            },
            forall|i: int|
                0 <= i < final(self).layers().len() && i != layer_id ==> if i < old(self).layers().len() {
                    #[trigger] final(self).layers()[i] == old(self).layers()[i]
                } else {
                    fresh_layer(final(self).layers()[i], i as nat, old(self).is_const())
                },
            layer_id < old(self).layers().len() ==> *r == old(self).layers()[layer_id as int],
            layer_id >= old(self).layers().len() ==> fresh_layer(*r, layer_id as nat, old(self).is_const()),
            final(self).layers()[layer_id as int] == *final(r),
            final(r).wf() && final(r).num() == layer_id && final(r).is_const() == old(self).is_const()
                && final(r).phase() == LayerState::Ticketing ==> final(self).wf(),
    {
        while layer_id >= self.layers.len()
            invariant
                self.wf(),
                self.same_but_layers(old(self)),
                layer_id < usize::MAX,
                old(self).layers().len() <= self.layers().len(),
                self.layers().len() <= if layer_id < old(self).layers().len() {
                    old(self).layers().len() as int
                } else {
                    layer_id + 1
                },
                forall|i: int|
                    0 <= i < self.layers().len() ==> if i < old(self).layers().len() {
                        #[trigger] self.layers()[i] == old(self).layers()[i]
                    } else {
                        fresh_layer(self.layers()[i], i as nat, old(self).is_const())
                    },
            decreases layer_id + 1 - self.layers().len(),
        {
            self.create_new_layer();
        }
        &mut self.layers[layer_id]
    }

    /// Requests `bit_size` AND gates on layer 0 between `a` and `b`; the result is the
    /// output of those gates.
    pub fn and(&mut self, bit_size: usize, a: LayerSource, b: LayerSource) -> (r: LayerSource)
        requires
            old(self).wf(),
            bit_size > 0,
            bits_fit((old(self).layer_size(0) + ceil8(bit_size as nat)) * 8),
        ensures
            final(self).wf(),
            final(self).same_but_layers(old(self)),
            final(self).layers().len() == if old(self).layers().len() == 0 {
                1nat
            } else {
                old(self).layers().len()
            },
            forall|i: int| 1 <= i < old(self).layers().len() ==> #[trigger] final(self).layers()[i] == old(self).layers()[i],
            final(self).layer_size(0) == old(self).layer_size(0) + ceil8(bit_size as nat),
            r matches LayerSource::TakeZ(t) && t.layer() == 0 && t.st() == old(self).layer_size(0) * 8
                && t.end() == t.st() + bit_size && t.wf() && final(self).layer_ops(0) == old(self).layer_ops(0) + and_ops(a, b, t),
            layers_laid(*old(self)) && src_len(&a, None) <= bit_size && src_len(&b, None) <= bit_size ==> layers_laid(*final(self)),
    {
        let ghost (ga, gb) = (a, b);
        let current_layer = self.get_layer(0);
        let and_ticket = current_layer.request_ticket(bit_size);
        current_layer.add_operation(MpcOperation::Copy { inp: a, out: LayerDest::Relay { ticket: and_ticket, stream: 0 } });
        current_layer.add_operation(MpcOperation::Copy { inp: b, out: LayerDest::Relay { ticket: and_ticket, stream: 1 } });
        assert(old(self).layer_ops(0).push(MpcOperation::Copy { inp: ga, out: LayerDest::Relay { ticket: and_ticket, stream: 0u8 } }).push(
            MpcOperation::Copy { inp: gb, out: LayerDest::Relay { ticket: and_ticket, stream: 1u8 } },
        ) =~= old(self).layer_ops(0) + and_ops(ga, gb, and_ticket));
        proof {
            if layers_laid(*old(self)) && src_len(&ga, None) <= bit_size && src_len(&gb, None) <= bit_size {
                let x = MpcOperation::Copy { inp: ga, out: LayerDest::Relay { ticket: and_ticket, stream: 0u8 } };
                let y = MpcOperation::Copy { inp: gb, out: LayerDest::Relay { ticket: and_ticket, stream: 1u8 } };
                lemma_ceil8(bit_size as nat);
                let z: int = 0;
                let ops0 = old(self).layer_ops(z);
                if old(self).layers().len() > 0 {
                    assert(ops_laid(old(self).layer_ops(z), z as nat, old(self).layer_size(z)));
                }
                assert(op_laid(x, 0, self.layer_size(0)));
                assert(op_laid(y, 0, self.layer_size(0)));
                lemma_laid_push_pair(ops0, 0, old(self).layer_size(0), self.layer_size(0), x, y);
                assert(self.layer_ops(0) =~= ops0.push(x).push(y));
                assert forall|i: int| 0 <= i < self.layers().len() implies #[trigger] ops_laid(self.layer_ops(i), i as nat, self.layer_size(i)) by {
                    if i > 0 {
                        assert(self.layers()[i] == old(self).layers()[i]);
                        assert(ops_laid(old(self).layer_ops(i), i as nat, old(self).layer_size(i)));
                    } else {
                        assert(ops_laid(ops0.push(x).push(y), 0, self.layer_size(0)));
                    }
                }
            }
        }
        LayerSource::TakeZ(and_ticket)
    }
}


impl MpcProvider {
    /// The output layer of the last run, to read outputs from.
    pub closed spec fn output_ref(&self) -> Option<&Layer> {
        match &self.output_layer {
            Some(l) => Some(l),
            None => None,
        }
    }

    /// The data of `src`: a plain array, or the output of a ticket of the last run's last
    /// layer.
    pub fn get_output(&self, src: LayerSource) -> (r: BitArray)
        requires
            src_ok(&src, self.output_ref()),
        ensures
            r.wf(),
            r.nbits() == src_len(&src, self.output_ref()),
            forall|j: int| 0 <= j < r.nbits() ==> #[trigger] r.bit(j) == src_bit(&src, self.output_ref(), j),
            r.buf() == src_buf(&src, self.output_ref()),
            src matches LayerSource::Input(d) ==> r == d,
    {
        Layer::extract_src_data(src, self.output_layer.as_ref())
    }

    /// Whether the output of `src` can be read: a plain array, or a ticket of the last run's
    /// last layer, which is finished.
    pub fn output_ready(&self, src: &LayerSource) -> (r: bool)
        requires
            self.wf(),
            src matches LayerSource::Input(d) ==> d.wf(),
        ensures
            r == src_ok(src, self.output_ref()),
    {
        match src {
            LayerSource::Input(d) => true,
            LayerSource::TakeZ(t) => match &self.output_layer {
                Some(l) => l.phase_is_finished() && l.ticket_accepted(t) && t.is_wf(),
                None => false,
            },
        }
    }

    /// The last of the commitments of all parties, the received ones followed by this
    /// party's, aggregated by the constant party; `None` for the other parties.
    pub fn finish_aggregate(&self, commit: Commitment, received: Vec<Commitment>) -> (r: Option<Commitment>)
        requires
            commit.wf(),
            forall|i: int| 0 <= i < received@.len() ==> (#[trigger] received@[i]).wf(),
        ensures
            self.is_const() <==> r is Some,
            r matches Some(m) ==> m.wf() && m.point() == point_sum(received@.push(commit))
                && ristretto_log(m.point()) == log_sum(received@.push(commit)),
    {
        let mut commitments = received;
        commitments.push(commit);
        if self.party_const {
            Some(Commitment::aggregate(commitments.as_slice()))
        } else {
            None
        }
    }

    /// Takes the deepest layer out, to run it; the layers run from the deepest one up.
    pub fn pop_layer(&mut self) -> (r: Option<Layer>)
        requires
            old(self).wf(),
        ensures
            final(self).wf(),
            final(self).same_but_layers(old(self)),
            old(self).layers().len() == 0 ==> r is None && final(self).layers() == old(self).layers(),
            old(self).layers().len() > 0 ==> r == Some(old(self).layers().last())
                && final(self).layers() == old(self).layers().drop_last(),
    {
        self.layers.pop()
    }

    /// Keeps the last layer of a run, whose gates hold the outputs.
    pub fn set_output_layer(&mut self, layer: Option<Layer>)
        requires
            old(self).wf(),
            layer matches Some(l) ==> l.wf(),
        ensures
            final(self).wf(),
            final(self).output() == layer,
            final(self).layers() == old(self).layers(),
            final(self).is_const() == old(self).is_const(),
            final(self).beaver() == old(self).beaver(),
            final(self).dabit() == old(self).dabit(),
    {
        self.output_layer = layer;
    }

    /// The Beaver triplets, to run a layer with.
    pub fn beaver_provider_mut(&mut self) -> (r: &mut BeaverProvider)
        ensures
            *r == old(self).beaver(),
            final(self).beaver() == *final(r),
            final(self).layers() == old(self).layers(),
            final(self).is_const() == old(self).is_const(),
            final(self).dabit() == old(self).dabit(),
            final(self).output() == old(self).output(),
            old(self).wf() && final(r).wf() ==> final(self).wf(),
    {
        &mut self.beaver_provider
    }

    /// The daBits, to convert shares with.
    pub fn dabit_provider_mut(&mut self) -> (r: &mut DaBitProvider)
        ensures
            *r == old(self).dabit(),
            final(self).dabit() == *final(r),
            final(self).layers() == old(self).layers(),
            final(self).is_const() == old(self).is_const(),
            final(self).beaver() == old(self).beaver(),
            final(self).output() == old(self).output(),
            old(self).wf() && final(r).wf() ==> final(self).wf(),
    {
        &mut self.dabit_provider
    }

    /// The bits of Beaver triplets and the daBits used since the last report; the report
    /// points move to now.
    pub fn get_preproc_stat(&mut self) -> (r: (usize, usize))
        requires
            old(self).wf(),
        ensures
            final(self).wf(),
            r.0 == (old(self).beaver().used_bytes() - old(self).beaver().reported_bytes()) * 8,
            r.1 == old(self).dabit().used_count() - old(self).dabit().reported_count(),
            final(self).beaver().reported_bytes() == old(self).beaver().used_bytes(),
            final(self).beaver().used_bytes() == old(self).beaver().used_bytes(),
            final(self).beaver().storage() == old(self).beaver().storage(),
            final(self).dabit().reported_count() == old(self).dabit().used_count(),
            final(self).dabit().used_count() == old(self).dabit().used_count(),
            final(self).dabit().storage() == old(self).dabit().storage(),
            final(self).layers() == old(self).layers(),
            final(self).output() == old(self).output(),
            final(self).is_const() == old(self).is_const(),
    {
        let bt = self.beaver_provider.report_beaver_usage_then_reset();
        let dabit = self.dabit_provider.report_dabit_usage_then_reset();
        (bt, dabit)
    }
}

proof fn lemma_bits_fit_mono(a: nat, b: nat)
    requires
        a <= b,
        bits_fit(b),
    ensures
        bits_fit(a),
{
    lemma_ceil8(a);
    lemma_ceil8(b);
}

/// Two powers of two of at least 2 add up to at most their product.
proof fn lemma_pow2_split(lo: nat, hi: nat)
    requires
        lo >= 1,
        hi >= 1,
    ensures
        pow2(lo) + pow2(hi) <= pow2(lo + hi),
        pow2(lo) >= 2,
        pow2(hi) >= 2,
{
    lemma_pow2_adds(lo, hi);
    lemma2_to64();
    if lo > 1 {
        lemma_pow2_strictly_increases(1, lo);
    }
    if hi > 1 {
        lemma_pow2_strictly_increases(1, hi);
    }
    let (a, b) = (pow2(lo) as int, pow2(hi) as int);
    assert(a + b <= a * b) by (nonlinear_arith)
        requires
            a >= 2,
            b >= 2,
    ;
}

/// `1 << k` on `usize` is `2^k` when `2^k * 8` fits.
proof fn lemma_usize_pow2(k: usize)
    requires
        pow2(k as nat) * 8 <= usize::MAX,
    ensures
        k < usize::BITS,
        (1usize << k) == pow2(k as nat),
{
    lemma2_to64();
    if k >= usize::BITS {
        if k > usize::BITS {
            lemma_pow2_strictly_increases(usize::BITS as nat, k as nat);
        }
        assert(false);
    }
    lemma_usize_shl_is_mul(1usize, k);
}

impl MpcProvider {
    /// One-hot encodes the `bit_num`-bit share `idx_bshared`, with gates from layer
    /// `layer_num` down: the low half of the bits is encoded by replication and the high half
    /// by bit expansion on the next layer, and this layer's gates AND the two.
    #[verifier::rlimit(100)]
    #[verifier::spinoff_prover]
    fn recursive_ohe_vec(&mut self, layer_num: usize, bit_num: usize, idx_bshared: u32) -> (r: LayerSource)
        requires
            old(self).wf(),
            1 <= bit_num <= 32,
            idx_bshared < pow2(bit_num as nat),
            layer_num + bit_num < usize::MAX,
            old(self).room(layer_num as int, pow2(bit_num as nat)),
        ensures
            final(self).wf(),
            final(self).same_but_layers(old(self)),
            final(self).layers().len() >= old(self).layers().len(),
            forall|i: int|
                0 <= i < final(self).layers().len() && i < layer_num ==> if i < old(self).layers().len() {
                    #[trigger] final(self).layers()[i] == old(self).layers()[i]
                } else {
                    fresh_layer(final(self).layers()[i], i as nat, old(self).is_const())
                },
            forall|i: int|
                layer_num <= i ==> #[trigger] final(self).layer_size(i) <= old(self).layer_size(i) + pow2(bit_num as nat)
                    && old(self).layer_ops(i).is_prefix_of(final(self).layer_ops(i)),
            ohe_src(r, layer_num as nat, bit_num as nat, old(self).is_const(), idx_bshared as nat),
            ohe_encodes(*final(self), r, layer_num as nat, bit_num as nat, old(self).is_const(), idx_bshared as nat),
            ohe_placed(
                *final(self),
                ohe_plan(layer_shape(*old(self)), layer_num as int, bit_num as nat).0,
                r,
                layer_num as nat,
                bit_num as nat,
                old(self).is_const(),
                idx_bshared as nat,
            ),
            layer_shape(*final(self)) == ohe_plan(layer_shape(*old(self)), layer_num as int, bit_num as nat).1,
            layers_laid(*old(self)) ==> layers_laid(*final(self)),
            bit_num == 1 ==> final(self).layers() == old(self).layers(),
            bit_num > 1 ==> (r matches LayerSource::TakeZ(t) && t.st() == old(self).layer_size(layer_num as int) * 8
                && final(self).layer_size(layer_num as int) == old(self).layer_size(layer_num as int) + ceil8(pow2(bit_num as nat))
                && exists|ls: LayerSource, hs: LayerSource|
                    #[trigger] ohe_step(
                        old(self).layer_ops(layer_num as int),
                        final(self).layer_ops(layer_num as int),
                        t,
                        (layer_num + 1) as nat,
                        bit_num as nat,
                        old(self).is_const(),
                        idx_bshared as nat,
                        ls,
                        hs,
                    )),
        decreases bit_num,
    {
        proof {
            lemma_pow2_pos(bit_num as nat);
            assert(bits_fit((old(self).layer_size(layer_num as int) + pow2(bit_num as nat)) * 8));
        }
        if bit_num == 1 {
            let mut ohe = BitArray::new(2);
            let ghost b0 = ohe.buf();
            ohe.set_bit(0, (idx_bshared != 0) ^ self.party_const);
            let ghost b1 = ohe.buf();
            ohe.set_bit(1, idx_bshared != 0);
            proof {
                ohe.lemma_wf();
                lemma_set_bit_bits(b0, 0, (idx_bshared != 0) != self.party_const, 0);
                lemma_set_bit_bits(b1, 1, idx_bshared != 0, 0);
                lemma_set_bit_bits(b1, 1, idx_bshared != 0, 1);
            }
            let r = LayerSource::Input(ohe);
            proof {
                assert(ohe_placed(*self, OhePlaces::Plain, r, layer_num as nat, bit_num as nat, self.is_const(), idx_bshared as nat));
            }
            return r;
        }
        let split = bit_num / 2 + bit_num % 2;
        let low_bit_num = split;
        let high_bit_num = bit_num - split;
        proof {
            assert(split == low_bits(bit_num as nat));
            lemma_pow2_split(low_bit_num as nat, high_bit_num as nat);
            lemma_pow2_adds(low_bit_num as nat, high_bit_num as nat);
            lemma2_to64();
            assert(pow2(split as nat) < pow2(32)) by {
                lemma_pow2_strictly_increases(split as nat, 32);
            }
            lemma_u32_shl_is_mul(1u32, split as u32);
            lemma_u32_low_bits_mask_is_mod(idx_bshared, split as nat);
            lemma_u32_shr_is_div(idx_bshared, split as u32);
        }
        let mask: u32 = (1u32 << (split as u32)) - 1;
        let low_idx_bshared: u32 = idx_bshared & mask;
        let high_idx_bshared: u32 = idx_bshared >> (split as u32);
        proof {
            assert(low_bits_mask(split as nat) == pow2(split as nat) - 1);
            assert(low_idx_bshared == idx_bshared % (pow2(split as nat) as u32));
            assert(low_idx_bshared < pow2(low_bit_num as nat));
            assert(high_idx_bshared == idx_bshared as nat / pow2(split as nat));
            assert(high_idx_bshared < pow2(high_bit_num as nat)) by {
                let (x, p, q) = (idx_bshared as int, pow2(split as nat) as int, pow2(high_bit_num as nat) as int);
                assert(x / p < q) by (nonlinear_arith)
                    requires
                        0 <= x < p * q,
                        p > 0,
                ;
            }
            assert forall|i: int| (layer_num + 1) as int <= i implies bits_fit(
                ((#[trigger] self.layer_size(i)) + pow2(low_bit_num as nat)) * 8,
            ) by {
                assert(bits_fit((self.layer_size(i) + pow2(bit_num as nat)) * 8));
                lemma_bits_fit_mono(
                    ((self.layer_size(i) + pow2(low_bit_num as nat)) * 8) as nat,
                    ((self.layer_size(i) + pow2(bit_num as nat)) * 8) as nat,
                );
            }
        }
        let ghost s0 = *self;
        let low_source = self.recursive_ohe_vec(layer_num + 1, low_bit_num, low_idx_bshared);
        let ghost s1 = *self;
        proof {
            assert forall|i: int| (layer_num + 1) as int <= i implies bits_fit(
                ((#[trigger] self.layer_size(i)) + pow2(high_bit_num as nat)) * 8,
            ) by {
                assert(bits_fit((s0.layer_size(i) + pow2(bit_num as nat)) * 8));
                assert(s1.layer_size(i) <= s0.layer_size(i) + pow2(low_bit_num as nat));
                lemma_bits_fit_mono(
                    ((self.layer_size(i) + pow2(high_bit_num as nat)) * 8) as nat,
                    ((s0.layer_size(i) + pow2(bit_num as nat)) * 8) as nat,
                );
            }
        }
        let high_source = self.recursive_ohe_vec(layer_num + 1, high_bit_num, high_idx_bshared);
        let ghost s2 = *self;
        let ghost gls = low_source;
        let ghost ghs = high_source;
        proof {
            assert(s2.layer_size(layer_num as int) == s0.layer_size(layer_num as int));
            assert(s2.layer_ops(layer_num as int) == s0.layer_ops(layer_num as int));
            lemma_usize_pow2(bit_num);
            lemma_ceil8(pow2(bit_num as nat));
            assert(bits_fit((s2.layer_size(layer_num as int) + ceil8(pow2(bit_num as nat))) * 8)) by {
                lemma_bits_fit_mono(
                    ((s2.layer_size(layer_num as int) + ceil8(pow2(bit_num as nat))) * 8) as nat,
                    ((s0.layer_size(layer_num as int) + pow2(bit_num as nat)) * 8) as nat,
                );
            }
            lemma_usize_pow2(high_bit_num);
            lemma_usize_pow2(low_bit_num);
        }
        let current_layer = self.get_layer(layer_num);
        let and_ticket = current_layer.request_ticket(1usize << bit_num);
        current_layer.add_operation(
            MpcOperation::Replicate {
                n: 1usize << high_bit_num,
                inp: low_source,
                out: LayerDest::Relay { ticket: and_ticket, stream: 0 },
            },
        );
        current_layer.add_operation(
            MpcOperation::BitExpand {
                n: 1usize << low_bit_num,
                inp: high_source,
                out: LayerDest::Relay { ticket: and_ticket, stream: 1 },
            },
        );
        let r = LayerSource::TakeZ(and_ticket);
        proof {
            if layers_laid(s0) {
                lemma_ohe_step_laid(
                    s2,
                    *self,
                    layer_num as int,
                    and_ticket,
                    gls,
                    ghs,
                    low_bit_num as nat,
                    high_bit_num as nat,
                    bit_num as nat,
                    s0.is_const(),
                    idx_bshared as nat,
                );
            }
        }
        proof {
            let lo = low_bit_num as nat;
            let hi = high_bit_num as nat;
            let lowp = ohe_plan(layer_shape(s0), layer_num + 1, lo);
            let highp = ohe_plan(lowp.1, layer_num + 1, hi);
            assert(layer_shape(s1) == lowp.1);
            let pl = lowp.0;
            let ph = highp.0;
            assert(ohe_placed(s1, pl, gls, (layer_num + 1) as nat, lo, s0.is_const(), idx_bshared as nat % pow2(lo)));
            assert(ohe_placed(s2, ph, ghs, (layer_num + 1) as nat, hi, s0.is_const(), idx_bshared as nat / pow2(lo)));
            assert(layer_shape(s2) == highp.1);
            assert(s2.layer_ops(layer_num as int).len() == highp.1(layer_num as int).1);
            assert(and_ticket.st() == highp.1(layer_num as int).0 * 8);
            assert forall|i: int| (layer_num + 1) as int <= i implies (#[trigger] s1.layer_ops(i)).is_prefix_of(self.layer_ops(i)) by {
                assert(s2.layer_size(i) <= s1.layer_size(i) + pow2(high_bit_num as nat));
                assert(s1.layer_ops(i).is_prefix_of(s2.layer_ops(i)));
                assert(s2.layer_ops(i) == self.layer_ops(i));
            }
            assert forall|i: int| (layer_num + 1) as int <= i implies (#[trigger] s2.layer_ops(i)).is_prefix_of(self.layer_ops(i)) by {
                assert(s2.layer_ops(i) == self.layer_ops(i));
            }
            lemma_ohe_placed_grow(s1, *self, pl, gls, (layer_num + 1) as nat, lo, s0.is_const(), idx_bshared as nat % pow2(lo));
            lemma_ohe_placed_grow(s2, *self, ph, ghs, (layer_num + 1) as nat, hi, s0.is_const(), idx_bshared as nat / pow2(lo));
            let k = s2.layer_ops(layer_num as int).len() as int;
            let ops = self.layer_ops(layer_num as int);
            assert(ops[k] == MpcOperation::Replicate {
                n: 1usize << high_bit_num,
                inp: gls,
                out: LayerDest::Relay { ticket: and_ticket, stream: 0 },
            });
            assert(ops[k + 1] == MpcOperation::BitExpand {
                n: 1usize << low_bit_num,
                inp: ghs,
                out: LayerDest::Relay { ticket: and_ticket, stream: 1 },
            });
            assert(op_input(ops[k]) == gls);
            assert(op_input(ops[k + 1]) == ghs);
            assert(ohe_placed(
                *self,
                OhePlaces::Split(k, and_ticket.st() as int, Box::new(pl), Box::new(ph)),
                r,
                layer_num as nat,
                bit_num as nat,
                s0.is_const(),
                idx_bshared as nat,
            ));
        }
        proof {
            assert(and_ticket.st() == s0.layer_size(layer_num as int) * 8);
            assert(self.layer_size(layer_num as int) == s0.layer_size(layer_num as int) + ceil8(pow2(bit_num as nat)));
            assert(ohe_step(
                s0.layer_ops(layer_num as int),
                self.layer_ops(layer_num as int),
                and_ticket,
                (layer_num + 1) as nat,
                bit_num as nat,
                s0.is_const(),
                idx_bshared as nat,
                gls,
                ghs,
            ));
            assert forall|i: int| layer_num <= i implies #[trigger] self.layer_size(i) <= s0.layer_size(i) + pow2(
                bit_num as nat,
            ) && s0.layer_ops(i).is_prefix_of(self.layer_ops(i)) by {
                if i > layer_num {
                    assert(s1.layer_size(i) <= s0.layer_size(i) + pow2(low_bit_num as nat));
                    assert(s2.layer_size(i) <= s1.layer_size(i) + pow2(high_bit_num as nat));
                    assert(s0.layer_ops(i).is_prefix_of(s1.layer_ops(i)));
                    assert(s1.layer_ops(i).is_prefix_of(s2.layer_ops(i)));
                } else {
                    assert(s0.layer_ops(i).is_prefix_of(self.layer_ops(i)));
                }
            }
        }
        r
    }

    /// One-hot encodes the boolean share `idx_bshared`: the output is the share of a vector
    /// of `2^bit_len` bits with a one only at the shared index.
    pub fn ohe_vec(&mut self, idx_bshared: BooleanValue) -> (r: LayerSource)
        requires
            old(self).wf(),
            idx_bshared.len() >= 1,
            old(self).room(0, pow2(idx_bshared.len())),
        ensures
            final(self).wf(),
            final(self).same_but_layers(old(self)),
            final(self).layers().len() >= old(self).layers().len(),
            forall|i: int|
                0 <= i ==> #[trigger] final(self).layer_size(i) <= old(self).layer_size(i) + pow2(idx_bshared.len())
                    && old(self).layer_ops(i).is_prefix_of(final(self).layer_ops(i)),
            ohe_src(r, 0, idx_bshared.len(), old(self).is_const(), idx_bshared.val()),
            ohe_encodes(*final(self), r, 0, idx_bshared.len(), old(self).is_const(), idx_bshared.val()),
            ohe_placed(
                *final(self),
                ohe_plan(layer_shape(*old(self)), 0, idx_bshared.len()).0,
                r,
                0,
                idx_bshared.len(),
                old(self).is_const(),
                idx_bshared.val(),
            ),
            layer_shape(*final(self)) == ohe_plan(layer_shape(*old(self)), 0, idx_bshared.len()).1,
            layers_laid(*old(self)) ==> layers_laid(*final(self)),
            idx_bshared.len() == 1 ==> final(self).layers() == old(self).layers(),
            idx_bshared.len() > 1 ==> (r matches LayerSource::TakeZ(t) && t.st() == old(self).layer_size(0) * 8
                && final(self).layer_size(0) == old(self).layer_size(0) + ceil8(pow2(idx_bshared.len()))
                && exists|ls: LayerSource, hs: LayerSource|
                    #[trigger] ohe_step(
                        old(self).layer_ops(0),
                        final(self).layer_ops(0),
                        t,
                        1,
                        idx_bshared.len(),
                        old(self).is_const(),
                        idx_bshared.val(),
                        ls,
                        hs,
                    )),
    {
        let bit_len = idx_bshared.bit_len();
        let value = idx_bshared.value();
        self.recursive_ohe_vec(0, bit_len as usize, value)
    }
}



proof fn lemma_split_step(a: u32, x: u32, k: nat)
    requires
        k < 32,
    ensures
        (a ^ x) % (pow2(k) as u32) == (a % (pow2(k) as u32)) ^ (x % (pow2(k) as u32)),
        (a ^ x) / (pow2(k) as u32) == (a / (pow2(k) as u32)) ^ (x / (pow2(k) as u32)),
{
    lemma_pow2_pos(k);
    lemma2_to64();
    if k > 0 {
        lemma_pow2_strictly_increases(k, 32);
    }
    lemma_u32_low_bits_mask_is_mod(a ^ x, k);
    lemma_u32_low_bits_mask_is_mod(a, k);
    lemma_u32_low_bits_mask_is_mod(x, k);
    lemma_u32_shr_is_div(a ^ x, k as u32);
    lemma_u32_shr_is_div(a, k as u32);
    lemma_u32_shr_is_div(x, k as u32);
    let m = low_bits_mask(k) as u32;
    let kk = k as u32;
    assert((a ^ x) & m == (a & m) ^ (x & m)) by (bit_vector);
    assert((a ^ x) >> kk == (a >> kk) ^ (x >> kk)) by (bit_vector);
    let pk = pow2(k) as u32;
    assert((a ^ x) / pk == (a ^ x) as nat / pow2(k));
    assert(a / pk == a as nat / pow2(k));
    assert(x / pk == x as nat / pow2(k));
}

/// Splitting boolean shares splits the shared value: the low `k` bits of the shares xor to
/// the low `k` bits of the value, and the bits above `k` to the bits above `k`.
pub proof fn lemma_split_shares(s: Seq<u32>, k: nat)
    requires
        k < 32,
    ensures
        xor_u32s(0, Seq::new(s.len(), |p: int| s[p] % (pow2(k) as u32))) == xor_u32s(0, s) % (pow2(k) as u32),
        xor_u32s(0, Seq::new(s.len(), |p: int| s[p] / (pow2(k) as u32))) == xor_u32s(0, s) / (pow2(k) as u32),
    decreases s.len(),
{
    lemma_pow2_pos(k);
    lemma2_to64();
    if k > 0 {
        lemma_pow2_strictly_increases(k, 32);
    }
    let lo = Seq::new(s.len(), |p: int| s[p] % (pow2(k) as u32));
    let hi = Seq::new(s.len(), |p: int| s[p] / (pow2(k) as u32));
    if s.len() == 0 {
        assert(0u32 % (pow2(k) as u32) == 0 && 0u32 / (pow2(k) as u32) == 0) by {
            assert(pow2(k) as u32 > 0);
        }
    } else {
        let t = s.drop_last();
        lemma_split_shares(t, k);
        assert(lo.drop_last() =~= Seq::new(t.len(), |p: int| t[p] % (pow2(k) as u32)));
        assert(hi.drop_last() =~= Seq::new(t.len(), |p: int| t[p] / (pow2(k) as u32)));
        lemma_split_step(xor_u32s(0, t), s.last(), k);
    }
}

proof fn lemma_ohe_single_prefix(s: Seq<u32>, k: int, m: int)
    requires
        0 <= m <= s.len(),
        forall|p: int| 0 <= p < s.len() ==> #[trigger] s[p] < 2,
    ensures
        xor_u32s(0, s.take(m)) < 2,
        xor_bools(Seq::new(m as nat, |p: int| (s[p] != 0) != (p == k))) == ((xor_u32s(0, s.take(m)) != 0) != (0 <= k < m)),
        xor_bools(Seq::new(m as nat, |p: int| s[p] != 0)) == (xor_u32s(0, s.take(m)) != 0),
    decreases m,
{
    if m == 0 {
    } else {
        let q = m - 1;
        lemma_ohe_single_prefix(s, k, q);
        assert(s.take(m).drop_last() =~= s.take(q));
        assert(Seq::new(m as nat, |p: int| (s[p] != 0) != (p == k)).drop_last() =~= Seq::new(q as nat, |p: int| (s[p] != 0) != (p == k)));
        assert(Seq::new(m as nat, |p: int| s[p] != 0).drop_last() =~= Seq::new(q as nat, |p: int| s[p] != 0));
        let a = xor_u32s(0, s.take(q));
        let x = s[q];
        assert(s.take(m).last() == x);
        assert((a ^ x) < 2 && (((a ^ x) != 0) == ((a != 0) != (x != 0)))) by (bit_vector)
            requires
                a < 2,
                x < 2,
        ;
    }
}

/// One-hot encoding of one bit: when the shares of a one-bit value `x` are each 0 or 1 and
/// party `k` alone negates its bit, the first entries of the parties' pairs xor to `x == 0`
/// and the second ones to `x != 0`.
pub proof fn lemma_ohe_single(s: Seq<u32>, k: int)
    requires
        0 <= k < s.len(),
        forall|p: int| 0 <= p < s.len() ==> #[trigger] s[p] < 2,
    ensures
        xor_bools(Seq::new(s.len(), |p: int| (s[p] != 0) != (p == k))) == (xor_u32s(0, s) == 0),
        xor_bools(Seq::new(s.len(), |p: int| s[p] != 0)) == (xor_u32s(0, s) != 0),
{
    lemma_ohe_single_prefix(s, k, s.len() as int);
    assert(s.take(s.len() as int) =~= s);
}

/// One-hot composition: entry `p` of the vector of `2^(l+h)` entries that ANDs the one-hot
/// vector of `a` (of `2^l` entries) replicated `2^h` times with the one-hot vector of `b`
/// (of `2^h` entries) with each entry expanded `2^l` times is set exactly at
/// `b * 2^l + a`, which lies within the vector.
pub proof fn lemma_ohe_compose(l: nat, h: nat, a: nat, b: nat, p: nat)
    requires
        a < pow2(l),
        b < pow2(h),
        p < pow2(l + h),
    ensures
        (p % pow2(l) == a && p / pow2(l) == b) == (p == b * pow2(l) + a),
        b * pow2(l) + a < pow2(l + h),
{
    lemma_pow2_pos(l);
    lemma_pow2_adds(l, h);
    let (pl, ph) = (pow2(l) as int, pow2(h) as int);
    assert(b * pl + a < pl * ph) by (nonlinear_arith)
        requires
            0 <= a < pl,
            0 <= b < ph,
    ;
    vstd::arithmetic::div_mod::lemma_fundamental_div_mod(p as int, pl);
    let (qq, rr) = ((p as int) / pl, (p as int) % pl);
    assert(pl * qq == qq * pl) by (nonlinear_arith);
    if p == b * pl + a {
        vstd::arithmetic::div_mod::lemma_fundamental_div_mod_converse(p as int, pl, b as int, a as int);
    }
}

} // verus!

verus! {

/// The xor of the values of `s`, each taken as 32 bits.
pub open spec fn xor_nats(s: Seq<nat>) -> nat {
    xor_u32s(0, s.map_values(|x: nat| x as u32)) as nat
}

/// The input of the operation at position `k` of layer `layer`, for each engine.
pub open spec fn inputs_at(ms: Seq<MpcProvider>, layer: nat, k: int) -> Seq<LayerSource> {
    Seq::new(ms.len(), |p: int| op_input(ms[p].layer_ops(layer as int)[k]))
}

/// Every source that reads gates reads the gates that the first one reads.
pub open spec fn aligned(srcs: Seq<LayerSource>) -> bool {
    forall|p: int| 0 <= p < srcs.len() ==> ((#[trigger] srcs[p]) is TakeZ ==> srcs[p] == srcs[0])
}

/// Bit `g` of stream `stream` of layer `layer` of each party, once run.
pub open spec fn party_bits(fs: Seq<Seq<Layer>>, layer: nat, stream: int, g: int) -> Seq<bool> {
    Seq::new(fs.len(), |p: int| seq_bit(fs[p][layer as int].and_rows()[stream].buf(), g))
}

/// Bit `j` of each party's source, read from the party's run layer `layer`.
pub open spec fn src_bits(srcs: Seq<LayerSource>, fs: Seq<Seq<Layer>>, layer: nat, j: int) -> Seq<bool> {
    Seq::new(srcs.len(), |p: int| src_bit(&srcs[p], Some(&fs[p][layer as int]), j))
}

/// Gate `st + j` of layer `layer` computed the AND of the parties' shares: the Z bits xor
/// to the and of the xors of the X bits and of the Y bits.
pub open spec fn gate_and(fs: Seq<Seq<Layer>>, layer: nat, st: int, j: int) -> bool {
    xor_bools(party_bits(fs, layer, 2, st + j)) == (xor_bools(party_bits(fs, layer, 0, st + j)) && xor_bools(
        party_bits(fs, layer, 1, st + j),
    ))
}

/// Layer `layer` of each party's run.
pub open spec fn layers_at(fs: Seq<Seq<Layer>>, layer: nat) -> Seq<Layer> {
    Seq::new(fs.len(), |p: int| fs[p][layer as int])
}

/// A gate whose bits over the parties' layers `layer` satisfy the AND law, as
/// `lemma_exchange_gates` gives it after the exchange of those layers, computed the AND.
pub proof fn lemma_gate_and_from_exchange(fs: Seq<Seq<Layer>>, layer: nat, st: int, j: int)
    requires
        xor_bools(stream_bits(layers_at(fs, layer), 2, st + j)) == (xor_bools(stream_bits(layers_at(fs, layer), 0, st + j))
            && xor_bools(stream_bits(layers_at(fs, layer), 1, st + j))),
    ensures
        gate_and(fs, layer, st, j),
{
    assert(stream_bits(layers_at(fs, layer), 2, st + j) =~= party_bits(fs, layer, 2, st + j));
    assert(stream_bits(layers_at(fs, layer), 0, st + j) =~= party_bits(fs, layer, 0, st + j));
    assert(stream_bits(layers_at(fs, layer), 1, st + j) =~= party_bits(fs, layer, 1, st + j));
}

/// Party `p`'s run layer `layer` holds at gate `st + q` of its X stream what operation `k`
/// writes there, and of its Y stream what operation `k + 1` writes, reading the party's run
/// layer `layer + 1`.
pub open spec fn streams_written(ms: Seq<MpcProvider>, fs: Seq<Seq<Layer>>, p: int, layer: nat, k: int, st: int, q: int) -> bool {
    let prev = Some(&fs[p][layer + 1 as int]);
    &&& seq_bit(fs[p][layer as int].and_rows()[0].buf(), st + q) == op_value(&ms[p].layer_ops(layer as int)[k], prev, q)
    &&& seq_bit(fs[p][layer as int].and_rows()[1].buf(), st + q) == op_value(&ms[p].layer_ops(layer as int)[k + 1], prev, q)
}

/// The parties ran the gates of a one-hot encoding placed at `places` whose sources are
/// `srcs`: at every split, the gates' X and Y streams hold what the two operations write,
/// the gates compute the AND over the parties, the sources of the two halves read the same
/// gates for every party, and the same holds of the halves on the next layer. The AND of a
/// gate follows from the exchange of its layer (`lemma_exchange_gates`, then
/// `lemma_gate_and_from_exchange`); that the streams hold what the two operations write is
/// what running the layer's operations gives when no other operation of the layer writes
/// those gates.
pub open spec fn ohe_ran(
    ms: Seq<MpcProvider>,
    fs: Seq<Seq<Layer>>,
    places: OhePlaces,
    srcs: Seq<LayerSource>,
    layer: nat,
    bits: nat,
) -> bool
    decreases places,
{
    if bits <= 1 {
        true
    } else {
        match places {
            OhePlaces::Plain => false,
            OhePlaces::Split(k, st0, low_places, high_places) => {
                let lo = low_bits(bits);
                let hi = (bits - lo) as nat;
                let st = srcs[0]->TakeZ_0.st() as int;
                &&& forall|j: int| 0 <= j < pow2(bits) ==> #[trigger] gate_and(fs, layer, st, j)
                &&& forall|p: int, q: int|
                    0 <= p < fs.len() && 0 <= q < pow2(bits) ==> #[trigger] streams_written(ms, fs, p, layer, k, st, q)
                &&& aligned(inputs_at(ms, layer, k))
                &&& aligned(inputs_at(ms, layer, k + 1))
                &&& ohe_ran(ms, fs, *low_places, inputs_at(ms, layer, k), (layer + 1) as nat, lo)
                &&& ohe_ran(ms, fs, *high_places, inputs_at(ms, layer, k + 1), (layer + 1) as nat, hi)
            },
        }
    }
}

/// Negating the share of one party negates the xor of all shares.
proof fn lemma_xor_flip_one(b: Seq<bool>, c: Seq<bool>, kc: int)
    requires
        b.len() == c.len(),
        0 <= kc < b.len(),
        forall|p: int| 0 <= p < b.len() ==> c[p] == (b[p] != (p == kc)),
    ensures
        xor_bools(c) == !xor_bools(b),
    decreases b.len(),
{
    if b.len() - 1 == kc {
        assert(b.drop_last() =~= c.drop_last());
    } else {
        lemma_xor_flip_one(b.drop_last(), c.drop_last(), kc);
    }
}

/// The xor of one-bit values is one exactly when the xor of their bits is true.
proof fn lemma_xor_bits(s: Seq<nat>)
    requires
        forall|p: int| 0 <= p < s.len() ==> s[p] < 2,
    ensures
        xor_nats(s) < 2,
        xor_bools(Seq::new(s.len(), |p: int| s[p] != 0)) == (xor_nats(s) != 0),
    decreases s.len(),
{
    if s.len() > 0 {
        let d = s.drop_last();
        lemma_xor_bits(d);
        assert(Seq::new(s.len(), |p: int| s[p] != 0).drop_last() =~= Seq::new(d.len(), |p: int| d[p] != 0));
        assert(s.map_values(|x: nat| x as u32).drop_last() =~= d.map_values(|x: nat| x as u32));
        let a = xor_u32s(0, d.map_values(|x: nat| x as u32));
        let x = s.last() as u32;
        assert(a < 2 && x < 2 ==> (a ^ x) < 2 && (((a ^ x) != 0) == ((a != 0) != (x != 0)))) by (bit_vector);
    }
}

/// Xor commutes with taking the low bits or the bits above them.
proof fn lemma_xor_nats_split(s: Seq<nat>, lo: nat)
    requires
        lo < 32,
        forall|p: int| 0 <= p < s.len() ==> s[p] < 0x1_0000_0000,
    ensures
        xor_nats(s) < 0x1_0000_0000,
        xor_nats(s.map_values(|x: nat| low_part(x, lo))) == low_part(xor_nats(s), lo),
        xor_nats(s.map_values(|x: nat| high_part(x, lo))) == high_part(xor_nats(s), lo),
    decreases s.len(),
{
    lemma_pow2_pos(lo);
    lemma2_to64();
    if lo > 0 {
        lemma_pow2_strictly_increases(lo, 32);
    }
    let sl = s.map_values(|x: nat| low_part(x, lo));
    let sh = s.map_values(|x: nat| high_part(x, lo));
    if s.len() == 0 {
        assert(xor_nats(s) == 0);
        assert(xor_nats(sl) == 0);
        assert(xor_nats(sh) == 0);
    } else {
        let d = s.drop_last();
        lemma_xor_nats_split(d, lo);
        assert(sl.drop_last() =~= d.map_values(|x: nat| low_part(x, lo)));
        assert(sh.drop_last() =~= d.map_values(|x: nat| high_part(x, lo)));
        assert(s.map_values(|x: nat| x as u32).drop_last() =~= d.map_values(|x: nat| x as u32));
        assert(sl.map_values(|x: nat| x as u32).drop_last() =~= d.map_values(|x: nat| low_part(x, lo)).map_values(|x: nat| x as u32));
        assert(sh.map_values(|x: nat| x as u32).drop_last() =~= d.map_values(|x: nat| high_part(x, lo)).map_values(|x: nat| x as u32));
        let a = xor_u32s(0, d.map_values(|x: nat| x as u32));
        let x = s.last() as u32;
        lemma_split_step(a, x, lo);
        let pk = pow2(lo) as u32;
        assert(low_part(s.last(), lo) == (x % pk) as nat);
        assert(high_part(s.last(), lo) == (x / pk) as nat);
        assert(low_part(a as nat, lo) == (a % pk) as nat);
        assert(high_part(a as nat, lo) == (a / pk) as nat);
        assert(low_part((a ^ x) as nat, lo) == ((a ^ x) % pk) as nat);
        assert(high_part((a ^ x) as nat, lo) == ((a ^ x) / pk) as nat);
        let al = xor_u32s(0, d.map_values(|x: nat| low_part(x, lo)).map_values(|x: nat| x as u32));
        let ah = xor_u32s(0, d.map_values(|x: nat| high_part(x, lo)).map_values(|x: nat| x as u32));
        assert(al as nat == low_part(a as nat, lo));
        assert(ah as nat == high_part(a as nat, lo));
        assert(sl.last() == low_part(s.last(), lo));
        assert(sh.last() == high_part(s.last(), lo));
        assert(xor_nats(s) == (a ^ x) as nat);
        assert(xor_nats(sl) == (al ^ (sl.last() as u32)) as nat);
        assert(xor_nats(sh) == (ah ^ (sh.last() as u32)) as nat);
    }
}

/// A number below `2^(lo + hi)` is told by its low `lo` bits and the bits above them.
proof fn lemma_split_eq(j: nat, x: nat, lo: nat)
    ensures
        (low_part(j, lo) == low_part(x, lo) && high_part(j, lo) == high_part(x, lo)) == (j == x),
{
    lemma_pow2_pos(lo);
    vstd::arithmetic::div_mod::lemma_fundamental_div_mod(j as int, pow2(lo) as int);
    vstd::arithmetic::div_mod::lemma_fundamental_div_mod(x as int, pow2(lo) as int);
}

/// The xor of values below `2^l` is below `2^l`.
proof fn lemma_xor_nats_bounded(s: Seq<nat>, l: nat)
    requires
        l <= 32,
        forall|p: int| 0 <= p < s.len() ==> s[p] < pow2(l),
    ensures
        xor_nats(s) < pow2(l),
    decreases s.len(),
{
    lemma_pow2_pos(l);
    if s.len() > 0 {
        let d = s.drop_last();
        lemma_xor_nats_bounded(d, l);
        assert(s.map_values(|x: nat| x as u32).drop_last() =~= d.map_values(|x: nat| x as u32));
        lemma2_to64();
        if l < 32 {
            lemma_pow2_strictly_increases(l, 32);
        }
        lemma_xor_bounded(xor_u32s(0, d.map_values(|x: nat| x as u32)), s.last() as u32, l);
    }
}

/// A placed one-hot encoding has the shape of one.
proof fn lemma_placed_src(p: MpcProvider, places: OhePlaces, src: LayerSource, layer: nat, bits: nat, c: bool, idx: nat)
    requires
        ohe_placed(p, places, src, layer, bits, c, idx),
    ensures
        ohe_src(src, layer, bits, c, idx),
{
}

/// Whether party `p` is the constant party `kc`.
pub open spec fn is_party(p: int, kc: int) -> bool {
    p == kc
}

/// One-hot encoding over all parties: party `p` encoded its `bits`-bit share `idxs[p]`
/// with its operations at `places` (the same for every party), the constant party being
/// `kc`, and the parties ran the gates of the encoding (`ohe_ran`). Then the parties'
/// outputs xor to the vector of `2^bits` bits that is one exactly at the xor of the shares.
pub proof fn lemma_ohe_one_hot(
    ms: Seq<MpcProvider>,
    fs: Seq<Seq<Layer>>,
    places: OhePlaces,
    srcs: Seq<LayerSource>,
    layer: nat,
    bits: nat,
    kc: int,
    idxs: Seq<nat>,
)
    requires
        ms.len() > 0,
        fs.len() == ms.len(),
        srcs.len() == ms.len(),
        idxs.len() == ms.len(),
        0 <= kc < ms.len(),
        1 <= bits <= 32,
        forall|p: int| 0 <= p < ms.len() ==> #[trigger] ohe_placed(ms[p], places, srcs[p], layer, bits, is_party(p, kc), idxs[p]),
        forall|p: int| 0 <= p < ms.len() ==> #[trigger] idxs[p] < pow2(bits),
        aligned(srcs),
        ohe_ran(ms, fs, places, srcs, layer, bits),
    ensures
        xor_nats(idxs) < pow2(bits),
        forall|j: int| 0 <= j < pow2(bits) ==> xor_bools(#[trigger] src_bits(srcs, fs, layer, j)) == (j == xor_nats(idxs)),
    decreases places,
{
    let n = ms.len();
    lemma2_to64();
    lemma_xor_nats_bounded(idxs, bits);
    if bits == 1 {
        let b = Seq::new(n, |p: int| idxs[p] != 0);
        lemma_xor_bits(idxs);
        assert(src_bits(srcs, fs, layer, 1) =~= b) by {
            assert forall|p: int| 0 <= p < n implies #[trigger] src_bits(srcs, fs, layer, 1)[p] == b[p] by {
                assert(ohe_placed(ms[p], places, srcs[p], layer, bits, is_party(p, kc), idxs[p]));
            }
        }
        assert forall|p: int| 0 <= p < n implies #[trigger] src_bits(srcs, fs, layer, 0)[p] == (b[p] != (p == kc)) by {
            assert(ohe_placed(ms[p], places, srcs[p], layer, bits, is_party(p, kc), idxs[p]));
        }
        lemma_xor_flip_one(b, src_bits(srcs, fs, layer, 0), kc);
    } else {
        assert(ohe_placed(ms[0], places, srcs[0], layer, bits, is_party(0, kc), idxs[0]));
        match places {
            OhePlaces::Plain => {},
            OhePlaces::Split(k, st0, low_places, high_places) => {
                let lo = low_bits(bits);
                let hi = (bits - lo) as nat;
                let st = srcs[0]->TakeZ_0.st() as int;
                let lsrcs = inputs_at(ms, layer, k);
                let hsrcs = inputs_at(ms, layer, k + 1);
                let lidx = idxs.map_values(|x: nat| low_part(x, lo));
                let hidx = idxs.map_values(|x: nat| high_part(x, lo));
                lemma_pow2_adds(lo, hi);
                lemma_pow2_pos(lo);
                lemma_pow2_pos(hi);
                assert forall|p: int| 0 <= p < n implies #[trigger] ohe_placed(ms[p], *low_places, lsrcs[p], layer + 1, lo, is_party(p, kc), lidx[p])
                    && ohe_placed(ms[p], *high_places, hsrcs[p], layer + 1, hi, is_party(p, kc), hidx[p]) && lidx[p] < pow2(lo) && hidx[p] < pow2(hi)
                    && srcs[p] == srcs[0] && ohe_pair(ms[p].layer_ops(layer as int), k, srcs[0]->TakeZ_0, lo, hi) by {
                    assert(ohe_placed(ms[p], places, srcs[p], layer, bits, is_party(p, kc), idxs[p]));
                    assert(idxs[p] < pow2(bits));
                    let (x, a, b) = (idxs[p] as int, pow2(lo) as int, pow2(hi) as int);
                    assert(x / a < b) by (nonlinear_arith)
                        requires
                            0 <= x < a * b,
                            a > 0,
                    ;
                }
                assert forall|p: int| 0 <= p < n implies #[trigger] lidx[p] < pow2(lo) by {
                    assert(ohe_placed(ms[p], *low_places, lsrcs[p], layer + 1, lo, is_party(p, kc), lidx[p]));
                }
                assert forall|p: int| 0 <= p < n implies #[trigger] hidx[p] < pow2(hi) by {
                    assert(ohe_placed(ms[p], *low_places, lsrcs[p], layer + 1, lo, is_party(p, kc), lidx[p]));
                }
                assert forall|p: int| 0 <= p < n implies #[trigger] ohe_placed(ms[p], *high_places, hsrcs[p], layer + 1, hi, is_party(p, kc), hidx[p]) by {
                    assert(ohe_placed(ms[p], *low_places, lsrcs[p], layer + 1, lo, is_party(p, kc), lidx[p]));
                }
                lemma_ohe_one_hot(ms, fs, *low_places, lsrcs, layer + 1, lo, kc, lidx);
                lemma_ohe_one_hot(ms, fs, *high_places, hsrcs, layer + 1, hi, kc, hidx);
                lemma_xor_nats_split(idxs, lo);
                let xi = xor_nats(idxs);
                assert forall|j: int| 0 <= j < pow2(bits) implies xor_bools(#[trigger] src_bits(srcs, fs, layer, j)) == (j == xi) by {
                    assert(gate_and(fs, layer, st, j));
                    assert(src_bits(srcs, fs, layer, j) =~= party_bits(fs, layer, 2, st + j)) by {
                        assert forall|p: int| 0 <= p < n implies #[trigger] src_bits(srcs, fs, layer, j)[p] == party_bits(fs, layer, 2, st + j)[p] by {
                            assert(ohe_placed(ms[p], *low_places, lsrcs[p], layer + 1, lo, is_party(p, kc), lidx[p]));
                        }
                    }
                    let jl = j % (pow2(lo) as int);
                    let jh = j / (pow2(lo) as int);
                    assert(0 <= jh < pow2(hi)) by {
                        let (a, b) = (pow2(lo) as int, pow2(hi) as int);
                        assert(j / a < b) by (nonlinear_arith)
                            requires
                                0 <= j < a * b,
                                a > 0,
                        ;
                    }
                    assert(party_bits(fs, layer, 0, st + j) =~= src_bits(lsrcs, fs, layer + 1, jl)) by {
                        assert forall|p: int| 0 <= p < n implies #[trigger] party_bits(fs, layer, 0, st + j)[p] == src_bits(lsrcs, fs, layer + 1, jl)[p] by {
                            assert(streams_written(ms, fs, p, layer, k, st, j));
                            assert(ohe_placed(ms[p], *low_places, lsrcs[p], layer + 1, lo, is_party(p, kc), lidx[p]));
                            lemma_placed_src(ms[p], *low_places, lsrcs[p], layer + 1, lo, is_party(p, kc), lidx[p]);
                        }
                    }
                    assert(party_bits(fs, layer, 1, st + j) =~= src_bits(hsrcs, fs, layer + 1, jh)) by {
                        assert forall|p: int| 0 <= p < n implies #[trigger] party_bits(fs, layer, 1, st + j)[p] == src_bits(hsrcs, fs, layer + 1, jh)[p] by {
                            assert(streams_written(ms, fs, p, layer, k, st, j));
                            assert(ohe_placed(ms[p], *low_places, lsrcs[p], layer + 1, lo, is_party(p, kc), lidx[p]));
                        }
                    }
                    lemma_split_eq(j as nat, xi, lo);
                }
            },
        }
    }
}

/// Along a chain of operations, a gate of stream `s` that none of the first `k` operations
/// writes keeps, from state `k` down to state `m`, its bit and its stream's storage size.
proof fn lemma_chain_untouched(states: Seq<Seq<BitArray>>, ops: Seq<MpcOperation>, prev: Option<&Layer>, s: int, g: int, m: int, k: int)
    requires
        op_chain(states, ops, prev),
        0 <= m <= k < ops.len(),
        0 <= s < states[0].len(),
        0 <= g < states[0][s].buf().len() * 8,
        forall|i: int|
            0 <= i < k ==> dest_stream(op_dest(#[trigger] &ops[i])) != s || g < dest_start(op_dest(&ops[i]))
                || dest_start(op_dest(&ops[i])) + op_extent(&ops[i], prev) <= g,
    ensures
        states[m].len() == states[0].len(),
        states[m][s].buf().len() == states[0][s].buf().len(),
        states[k].len() == states[0].len(),
        states[k][s].buf().len() == states[0][s].buf().len(),
        seq_bit(states[m][s].buf(), g) == seq_bit(states[k][s].buf(), g),
    decreases k - m,
{
    lemma_chain_prefix_len(states, ops, prev, s, m);
    lemma_chain_prefix_len(states, ops, prev, s, k);
    if m < k {
        lemma_chain_untouched(states, ops, prev, s, g, m + 1, k);
        assert(op_applied(states[m + 1], states[m], &ops[m], prev));
    }
}

/// Along a chain of operations the states keep their number of streams and the size of
/// each stream's storage, from state 0 to state `m`.
proof fn lemma_chain_prefix_len(states: Seq<Seq<BitArray>>, ops: Seq<MpcOperation>, prev: Option<&Layer>, s: int, m: int)
    requires
        op_chain(states, ops, prev),
        0 <= m <= ops.len(),
        0 <= s < states[0].len(),
    ensures
        states[m].len() == states[0].len(),
        states[m][s].buf().len() == states[0][s].buf().len(),
    decreases m,
{
    if m > 0 {
        lemma_chain_prefix_len(states, ops, prev, s, m - 1);
        assert(op_applied(states[m], states[m - 1], &ops[m - 1], prev));
    }
}

/// Running the operations of a laid-out layer from zeroed streams leaves, on the gates an
/// operation writes, what that operation writes: no other operation writes them.
pub proof fn lemma_laid_ops_write(
    init: Seq<BitArray>,
    rows: Seq<BitArray>,
    ops: Seq<MpcOperation>,
    prev: Option<&Layer>,
    layer: nat,
    size: nat,
    k: int,
    q: int,
)
    requires
        ops_applied(init, rows, ops, prev),
        ops_laid(ops, layer, size),
        0 <= k < ops.len(),
        0 <= q < op_extent(&ops[k], None),
        0 <= op_stream(ops[k]) < rows.len(),
        rows[op_stream(ops[k])].buf().len() * 8 >= size * 8,
    ensures
        seq_bit(rows[op_stream(ops[k])].buf(), op_ticket(ops[k]).st() + q) == op_value(&ops[k], prev, q),
{
    let states = choose|states: Seq<Seq<BitArray>>|
        #[trigger] op_chain(states, ops, prev) && states[0] == rows && states[ops.len() as int] == init;
    let s = op_stream(ops[k]);
    let t = op_ticket(ops[k]);
    let g = t.st() + q;
    assert(op_laid(ops[k], layer, size));
    assert forall|i: int|
        0 <= i < k implies dest_stream(op_dest(#[trigger] &ops[i])) != s || g < dest_start(op_dest(&ops[i]))
            || dest_start(op_dest(&ops[i])) + op_extent(&ops[i], prev) <= g by {
        assert(ops_apart(ops[i], ops[k]));
        assert(op_laid(ops[i], layer, size));
    }
    lemma_chain_untouched(states, ops, prev, s, g, 0, k);
    lemma_chain_prefix_len(states, ops, prev, s, k + 1);
    assert(op_applied(states[k + 1], states[k], &ops[k], prev));
}

/// The layer that layer `layer` of a party's run read from: the next deeper one, when there
/// is one.
pub open spec fn prev_of(f: &Seq<Layer>, layer: int) -> Option<&Layer> {
    if layer + 1 < f.len() {
        Some(&f[layer + 1])
    } else {
        None
    }
}

/// Layer `layer` of the run `f` ran the engine's operations of that layer: its X and Y
/// streams are what those operations write, from zeroed streams, reading the next deeper
/// layer of the run, as `prepare_exchange` states and `complete_exchange` keeps.
pub open spec fn ran_layer(m: MpcProvider, f: Seq<Layer>, layer: int) -> bool {
    exists|init: Seq<BitArray>, rows: Seq<BitArray>|
        #[trigger] ops_applied(init, rows, m.layer_ops(layer), prev_of(&f, layer)) && rows.len() == 3
            && rows[0] == f[layer].and_rows()[0] && rows[1] == f[layer].and_rows()[1]
            && rows[0].buf().len() >= m.layer_size(layer) && rows[1].buf().len() >= m.layer_size(layer)
}

/// The parties ran every layer of their engines: each party ran each of its layers, and on
/// every gate of every layer the parties computed the AND.
pub open spec fn engines_ran(ms: Seq<MpcProvider>, fs: Seq<Seq<Layer>>) -> bool {
    &&& fs.len() == ms.len()
    &&& forall|p: int| 0 <= p < ms.len() ==> (#[trigger] fs[p]).len() == ms[p].layers().len()
    &&& forall|p: int, l: int| 0 <= p < ms.len() && 0 <= l < ms[p].layers().len() ==> #[trigger] ran_layer(ms[p], fs[p], l)
    &&& forall|l: int, g: int| 0 <= l && 0 <= g < ms[0].layer_size(l) * 8 ==> #[trigger] gate_and(fs, l as nat, 0, g)
}

/// The engines hold, for every party, a one-hot encoding placed at `places` with its
/// operations laid out, on layers of the same shape for every party.
pub open spec fn engines_encode(
    ms: Seq<MpcProvider>,
    places: OhePlaces,
    srcs: Seq<LayerSource>,
    layer: nat,
    bits: nat,
    kc: int,
    idxs: Seq<nat>,
) -> bool {
    &&& srcs.len() == ms.len()
    &&& idxs.len() == ms.len()
    &&& forall|p: int| 0 <= p < ms.len() ==> #[trigger] ohe_placed(ms[p], places, srcs[p], layer, bits, is_party(p, kc), idxs[p])
    &&& forall|p: int| 0 <= p < ms.len() ==> #[trigger] layers_laid(ms[p])
    &&& forall|p: int| 0 <= p < ms.len() ==> #[trigger] layer_shape(ms[p]) == layer_shape(ms[0])
}

/// An operation reading a plain array writes the same whatever layer it could read.
proof fn lemma_value_of_input(op: MpcOperation, a: Option<&Layer>, b: Option<&Layer>, q: int)
    requires
        op_input(op) is Input,
    ensures
        op_value(&op, a, q) == op_value(&op, b, q),
{
}

/// From the run of their engines, the parties ran the gates of their one-hot encodings
/// (`ohe_ran`), and their encodings' sources read the same gates.
pub proof fn lemma_ohe_ran_from_run(
    ms: Seq<MpcProvider>,
    fs: Seq<Seq<Layer>>,
    places: OhePlaces,
    srcs: Seq<LayerSource>,
    layer: nat,
    bits: nat,
    kc: int,
    idxs: Seq<nat>,
)
    requires
        ms.len() > 0,
        1 <= bits <= 32,
        engines_encode(ms, places, srcs, layer, bits, kc, idxs),
        engines_ran(ms, fs),
    ensures
        ohe_ran(ms, fs, places, srcs, layer, bits),
        aligned(srcs),
    decreases places,
{
    let n = ms.len();
    lemma2_to64();
    if bits == 1 {
        assert forall|p: int| 0 <= p < n implies !((#[trigger] srcs[p]) is TakeZ) by {
            assert(ohe_placed(ms[p], places, srcs[p], layer, bits, is_party(p, kc), idxs[p]));
        }
    } else {
        assert(ohe_placed(ms[0], places, srcs[0], layer, bits, is_party(0, kc), idxs[0]));
        match places {
            OhePlaces::Plain => {},
            OhePlaces::Split(k, st0, low_places, high_places) => {
                let lo = low_bits(bits);
                let hi = (bits - lo) as nat;
                let l = layer as int;
                let st = srcs[0]->TakeZ_0.st() as int;
                let lsrcs = inputs_at(ms, layer, k);
                let hsrcs = inputs_at(ms, layer, k + 1);
                let lidx = idxs.map_values(|x: nat| low_part(x, lo));
                let hidx = idxs.map_values(|x: nat| high_part(x, lo));
                lemma_pow2_adds(lo, hi);
                lemma_pow2_pos(lo);
                lemma_pow2_pos(hi);
                assert(pow2(hi) * pow2(lo) == pow2(bits)) by (nonlinear_arith)
                    requires
                        pow2(lo) * pow2(hi) == pow2(bits),
                ;
                // Every party's source reads the same ticket.
                assert forall|p: int| 0 <= p < n implies (#[trigger] srcs[p]) == srcs[0] by {
                    assert(ohe_placed(ms[p], places, srcs[p], layer, bits, is_party(p, kc), idxs[p]));
                    Ticket::lemma_ticket_eq(srcs[p]->TakeZ_0, srcs[0]->TakeZ_0);
                }
                // The halves are encodings on the next layer, for every party.
                assert forall|p: int| 0 <= p < n implies #[trigger] ohe_placed(ms[p], *low_places, lsrcs[p], layer + 1, lo, is_party(p, kc), lidx[p])
                    && ohe_placed(ms[p], *high_places, hsrcs[p], layer + 1, hi, is_party(p, kc), hidx[p])
                    && ohe_pair(ms[p].layer_ops(l), k, srcs[0]->TakeZ_0, lo, hi) by {
                    assert(ohe_placed(ms[p], places, srcs[p], layer, bits, is_party(p, kc), idxs[p]));
                }
                assert forall|p: int| 0 <= p < n implies #[trigger] ohe_placed(ms[p], *high_places, hsrcs[p], layer + 1, hi, is_party(p, kc), hidx[p]) by {
                    assert(ohe_placed(ms[p], *low_places, lsrcs[p], layer + 1, lo, is_party(p, kc), lidx[p]));
                }
                assert(engines_encode(ms, *low_places, lsrcs, layer + 1, lo, kc, lidx));
                assert(engines_encode(ms, *high_places, hsrcs, layer + 1, hi, kc, hidx));
                lemma_ohe_ran_from_run(ms, fs, *low_places, lsrcs, layer + 1, lo, kc, lidx);
                lemma_ohe_ran_from_run(ms, fs, *high_places, hsrcs, layer + 1, hi, kc, hidx);
                // The streams hold what the pair writes.
                assert forall|p: int, q: int| 0 <= p < fs.len() && 0 <= q < pow2(bits) implies #[trigger] streams_written(
                    ms,
                    fs,
                    p,
                    layer,
                    k,
                    st,
                    q,
                ) by {
                    lemma_ohe_streams(ms, fs, places, srcs, layer, bits, kc, idxs, p, q);
                }
                // The gates compute the AND.
                assert forall|j: int| 0 <= j < pow2(bits) implies #[trigger] gate_and(fs, layer, st, j) by {
                    let ops0 = ms[0].layer_ops(l);
                    assert(layers_laid(ms[0]));
                    assert(ohe_pair(ops0, k, srcs[0]->TakeZ_0, lo, hi));
                    assert(l < ms[0].layers().len());
                    assert(ops_laid(ms[0].layer_ops(l), l as nat, ms[0].layer_size(l)));
                    assert(op_laid(ops0[k], layer, ms[0].layer_size(l)));
                    assert(gate_and(fs, l as nat, 0, st + j));
                    assert(party_bits(fs, layer, 2, 0 + (st + j)) == party_bits(fs, layer, 2, st + j));
                }
            },
        }
    }
}

/// The streams of the gates of a placed one-hot encoding hold what its pair of operations
/// writes, for party `p`, once the engines ran.
proof fn lemma_ohe_streams(
    ms: Seq<MpcProvider>,
    fs: Seq<Seq<Layer>>,
    places: OhePlaces,
    srcs: Seq<LayerSource>,
    layer: nat,
    bits: nat,
    kc: int,
    idxs: Seq<nat>,
    p: int,
    q: int,
)
    requires
        ms.len() > 0,
        2 <= bits <= 32,
        places is Split,
        engines_encode(ms, places, srcs, layer, bits, kc, idxs),
        engines_ran(ms, fs),
        0 <= p < ms.len(),
        0 <= q < pow2(bits),
        srcs[p] == srcs[0],
    ensures
        streams_written(ms, fs, p, layer, places->Split_0, srcs[0]->TakeZ_0.st() as int, q),
{
    let k = places->Split_0;
    let lo = low_bits(bits);
    let hi = (bits - lo) as nat;
    let l = layer as int;
    let ops = ms[p].layer_ops(l);
    lemma2_to64();
    lemma_pow2_adds(lo, hi);
    assert(pow2(hi) * pow2(lo) == pow2(bits)) by (nonlinear_arith)
        requires
            pow2(lo) * pow2(hi) == pow2(bits),
    ;
    assert(ohe_placed(ms[p], places, srcs[p], layer, bits, is_party(p, kc), idxs[p]));
    let lsrc = op_input(ops[k]);
    let hsrc = op_input(ops[k + 1]);
    lemma_placed_src(ms[p], *places->Split_2, lsrc, layer + 1, lo, is_party(p, kc), low_part(idxs[p], lo));
    lemma_placed_src(ms[p], *places->Split_3, hsrc, layer + 1, hi, is_party(p, kc), high_part(idxs[p], lo));
    assert(l < ms[p].layers().len());
    assert(layers_laid(ms[p]));
    assert(ops_laid(ms[p].layer_ops(l), l as nat, ms[p].layer_size(l)));
    assert(ran_layer(ms[p], fs[p], l));
    let (init, rows) = choose|init: Seq<BitArray>, rows: Seq<BitArray>|
        #[trigger] ops_applied(init, rows, ms[p].layer_ops(l), prev_of(&fs[p], l)) && rows.len() == 3
            && rows[0] == fs[p][l].and_rows()[0] && rows[1] == fs[p][l].and_rows()[1]
            && rows[0].buf().len() >= ms[p].layer_size(l) && rows[1].buf().len() >= ms[p].layer_size(l);
    assert(op_extent(&ops[k], None) == pow2(bits));
    assert(op_extent(&ops[k + 1], None) == pow2(bits));
    lemma_laid_ops_write(init, rows, ops, prev_of(&fs[p], l), layer, ms[p].layer_size(l), k, q);
    lemma_laid_ops_write(init, rows, ops, prev_of(&fs[p], l), layer, ms[p].layer_size(l), k + 1, q);
    let sp = Some(&fs[p][layer + 1 as int]);
    if !(l + 1 < fs[p].len()) {
        // Nothing is on the next layer, so both halves are plain arrays.
        if lo > 1 {
            lemma_placed_pair_on(ms[p], *places->Split_2, lsrc, layer + 1, lo, is_party(p, kc), low_part(idxs[p], lo));
        }
        if hi > 1 {
            lemma_placed_pair_on(ms[p], *places->Split_3, hsrc, layer + 1, hi, is_party(p, kc), high_part(idxs[p], lo));
        }
        lemma_value_of_input(ops[k], prev_of(&fs[p], l), sp, q);
        lemma_value_of_input(ops[k + 1], prev_of(&fs[p], l), sp, q);
    }
}

/// A placed encoding of more than one bit has operations on its layer, which therefore
/// exists.
proof fn lemma_placed_pair_on(m: MpcProvider, places: OhePlaces, src: LayerSource, layer: nat, bits: nat, c: bool, idx: nat)
    requires
        ohe_placed(m, places, src, layer, bits, c, idx),
        bits > 1,
    ensures
        layer < m.layers().len(),
{
    match places {
        OhePlaces::Plain => {},
        OhePlaces::Split(k, st, lp, hp) => {
            assert(m.layer_ops(layer as int).len() > 0);
        },
    }
}

/// What `ohe_vec` states of a request of the one-hot encoding of the `bits`-bit share `idx` on
/// the engine `old` with its operations laid out: the engine `m` after it holds the encoding,
/// of source `src`, at the places that the old engine's shape fixes, has the shape that
/// follows, and keeps its operations laid out.
pub open spec fn ohe_vec_made(old: MpcProvider, m: MpcProvider, src: LayerSource, bits: nat, c: bool, idx: nat) -> bool {
    &&& ohe_placed(m, ohe_plan(layer_shape(old), 0, bits).0, src, 0, bits, c, idx)
    &&& layer_shape(m) == ohe_plan(layer_shape(old), 0, bits).1
    &&& layers_laid(m)
}

/// One-hot law of `ohe_vec` over all parties: party `p` requested, on an engine `olds[p]`
/// with its operations laid out and of the same shape as every other party's, the one-hot
/// encoding of its `bits`-bit share `idxs[p]`, and got the engine `ms[p]` and the source
/// `srcs[p]` that `ohe_vec` states; `kc` is the constant party. Once the parties have run
/// all layers of their engines (`engines_ran`: each layer runs its operations and its gates
/// compute the AND over the parties), their outputs of the encodings, read from the
/// top layer of their runs, xor to the vector of `2^bits` bits that is one exactly at the
/// xor of their shares.
pub proof fn lemma_ohe_vec_one_hot(
    olds: Seq<MpcProvider>,
    ms: Seq<MpcProvider>,
    fs: Seq<Seq<Layer>>,
    srcs: Seq<LayerSource>,
    bits: nat,
    kc: int,
    idxs: Seq<nat>,
)
    requires
        ms.len() > 0,
        olds.len() == ms.len(),
        srcs.len() == ms.len(),
        idxs.len() == ms.len(),
        0 <= kc < ms.len(),
        1 <= bits <= 32,
        forall|p: int| 0 <= p < ms.len() ==> #[trigger] layer_shape(olds[p]) == layer_shape(olds[0]),
        forall|p: int| 0 <= p < ms.len() ==> #[trigger] idxs[p] < pow2(bits),
        forall|p: int| 0 <= p < ms.len() ==> #[trigger] ohe_vec_made(olds[p], ms[p], srcs[p], bits, is_party(p, kc), idxs[p]),
        engines_ran(ms, fs),
    ensures
        xor_nats(idxs) < pow2(bits),
        forall|j: int| 0 <= j < pow2(bits) ==> xor_bools(#[trigger] src_bits(srcs, fs, 0, j)) == (j == xor_nats(idxs)),
{
    let places = ohe_plan(layer_shape(olds[0]), 0, bits).0;
    assert(ohe_vec_made(olds[0], ms[0], srcs[0], bits, is_party(0, kc), idxs[0]));
    assert forall|p: int| 0 <= p < ms.len() implies #[trigger] ohe_placed(ms[p], places, srcs[p], 0, bits, is_party(p, kc), idxs[p]) by {
        assert(ohe_vec_made(olds[p], ms[p], srcs[p], bits, is_party(p, kc), idxs[p]));
        assert(layer_shape(olds[p]) == layer_shape(olds[0]));
    }
    assert forall|p: int| 0 <= p < ms.len() implies #[trigger] layers_laid(ms[p]) by {
        assert(ohe_vec_made(olds[p], ms[p], srcs[p], bits, is_party(p, kc), idxs[p]));
    }
    assert forall|p: int| 0 <= p < ms.len() implies #[trigger] layer_shape(ms[p]) == layer_shape(ms[0]) by {
        assert(ohe_vec_made(olds[p], ms[p], srcs[p], bits, is_party(p, kc), idxs[p]));
        assert(layer_shape(olds[p]) == layer_shape(olds[0]));
    }
    assert(engines_encode(ms, places, srcs, 0, bits, kc, idxs));
    lemma_ohe_ran_from_run(ms, fs, places, srcs, 0, bits, kc, idxs);
    lemma_ohe_one_hot(ms, fs, places, srcs, 0, bits, kc, idxs);
}

/// One-hot law over all parties for encodings requested on layers of a common shape `sh`:
/// party `p`'s engine `ms[p]` holds the encoding of its share `idxs[p]`, of source `srcs[p]`,
/// at the places that `sh` fixes, its operations laid out, on layers of the same shape as
/// every other party's; `kc` is the constant party. Once the parties have run all layers of
/// their engines, their outputs of the encodings xor to the vector of `2^bits` bits that is
/// one exactly at the xor of their shares.
pub proof fn lemma_ohe_one_hot_run(
    sh: spec_fn(int) -> (nat, nat),
    ms: Seq<MpcProvider>,
    fs: Seq<Seq<Layer>>,
    srcs: Seq<LayerSource>,
    bits: nat,
    kc: int,
    idxs: Seq<nat>,
)
    requires
        ms.len() > 0,
        srcs.len() == ms.len(),
        idxs.len() == ms.len(),
        0 <= kc < ms.len(),
        1 <= bits <= 32,
        forall|p: int| 0 <= p < ms.len() ==> #[trigger] idxs[p] < pow2(bits),
        forall|p: int|
            0 <= p < ms.len() ==> #[trigger] ohe_placed(ms[p], ohe_plan(sh, 0, bits).0, srcs[p], 0, bits, is_party(p, kc), idxs[p]),
        forall|p: int| 0 <= p < ms.len() ==> #[trigger] layers_laid(ms[p]),
        forall|p: int| 0 <= p < ms.len() ==> #[trigger] layer_shape(ms[p]) == layer_shape(ms[0]),
        engines_ran(ms, fs),
    ensures
        xor_nats(idxs) < pow2(bits),
        forall|j: int| 0 <= j < pow2(bits) ==> xor_bools(#[trigger] src_bits(srcs, fs, 0, j)) == (j == xor_nats(idxs)),
{
    let places = ohe_plan(sh, 0, bits).0;
    assert(engines_encode(ms, places, srcs, 0, bits, kc, idxs));
    lemma_ohe_ran_from_run(ms, fs, places, srcs, 0, bits, kc, idxs);
    lemma_ohe_one_hot(ms, fs, places, srcs, 0, bits, kc, idxs);
}

/// The bytes of gates that a one-hot encoding of `bits` bits reserves over all its layers:
/// `2^bits` gates for the top, rounded up to whole bytes, and what the encodings of the low
/// and of the high bits reserve.
pub open spec fn ohe_bytes(bits: nat) -> nat
    decreases bits,
{
    if bits <= 1 {
        0
    } else {
        ceil8(pow2(bits)) + ohe_bytes(low_bits(bits)) + ohe_bytes((bits - low_bits(bits)) as nat)
    }
}

/// The bytes of gates reserved in the first `d` layers of a shape.
pub open spec fn shape_bytes(sh: spec_fn(int) -> (nat, nat), d: nat) -> nat
    decreases d,
{
    if d == 0 {
        0
    } else {
        shape_bytes(sh, (d - 1) as nat) + sh(d - 1).0
    }
}

/// Shapes that agree below `d` reserve the same bytes there; growing one layer below `d` by
/// `delta` bytes grows the total by `delta`.
proof fn lemma_shape_bytes_update(a: spec_fn(int) -> (nat, nat), b: spec_fn(int) -> (nat, nat), d: nat, l: int, delta: nat)
    requires
        0 <= l,
        forall|i: int| 0 <= i < d && i != l ==> #[trigger] b(i).0 == a(i).0,
        l < d ==> b(l).0 == a(l).0 + delta,
    ensures
        shape_bytes(b, d) == shape_bytes(a, d) + if l < d { delta } else { 0 },
    decreases d,
{
    if d > 0 {
        lemma_shape_bytes_update(a, b, (d - 1) as nat, l, delta);
        assert(b(d - 1).0 == a(d - 1).0 || d - 1 == l);
    }
}

/// A one-hot encoding of `bits` bits requested on layer `layer` reserves exactly
/// `ohe_bytes(bits)` bytes of gates, all on layers `layer` to `layer + bits - 1`.
pub proof fn lemma_plan_bytes(sh: spec_fn(int) -> (nat, nat), layer: int, bits: nat, d: nat)
    requires
        0 <= layer,
        layer + bits <= d,
    ensures
        shape_bytes(ohe_plan(sh, layer, bits).1, d) == shape_bytes(sh, d) + ohe_bytes(bits),
        forall|i: int| (i < layer || layer + bits <= i) ==> #[trigger] ohe_plan(sh, layer, bits).1(i).0 == sh(i).0,
    decreases bits,
{
    if bits > 1 {
        let lo = low_bits(bits);
        let hi = (bits - lo) as nat;
        let low = ohe_plan(sh, layer + 1, lo);
        let high = ohe_plan(low.1, layer + 1, hi);
        lemma_plan_bytes(sh, layer + 1, lo, d);
        lemma_plan_bytes(low.1, layer + 1, hi, d);
        let fin = ohe_plan(sh, layer, bits).1;
        lemma_shape_bytes_update(high.1, fin, d, layer, ceil8(pow2(bits)));
        assert forall|i: int| (i < layer || layer + bits <= i) implies #[trigger] fin(i).0 == sh(i).0 by {
            assert(low.1(i).0 == sh(i).0);
            assert(high.1(i).0 == low.1(i).0);
        }
    }
}

/// A one-hot encoding of `bits` bits reserves at most `(3 * 2^bits + 16) / 16` bytes of
/// gates: about one and a half gates per output bit.
pub proof fn lemma_ohe_bytes_bound(bits: nat)
    ensures
        16 * ohe_bytes(bits) <= 3 * pow2(bits) + 16,
    decreases bits,
{
    lemma2_to64();
    if bits <= 1 {
    } else if bits <= 6 {
        reveal_with_fuel(ohe_bytes, 4);
        assert(ceil8(4) == 1 && ceil8(8) == 1 && ceil8(16) == 2 && ceil8(32) == 4 && ceil8(64) == 8);
        assert(ohe_bytes(1) == 0);
        assert(ohe_bytes(2) == 1);
        assert(ohe_bytes(3) == 2);
        assert(ohe_bytes(4) == 4);
        assert(ohe_bytes(5) == 7);
        assert(ohe_bytes(6) == 12);
    } else {
        let lo = low_bits(bits);
        let hi = (bits - lo) as nat;
        lemma_ohe_bytes_bound(lo);
        lemma_ohe_bytes_bound(hi);
        lemma_pow2_adds(lo, hi);
        lemma_pow2_adds(3, (bits - 3) as nat);
        lemma_pow2_pos((bits - 3) as nat);
        lemma_ceil8(pow2(bits));
        if hi < lo {
            lemma_pow2_strictly_increases(hi, lo);
        }
        assert(lo >= 4 && hi >= 3);
        if hi > 3 {
            lemma_pow2_strictly_increases(3, hi);
        }
        if lo > 4 {
            lemma_pow2_strictly_increases(4, lo);
        }
        let (a, b) = (pow2(lo) as int, pow2(hi) as int);
        assert(a * b >= 8 * a) by (nonlinear_arith)
            requires
                b >= 8,
                a > 0,
        ;
        assert(pow2(bits) % 8 == 0) by (nonlinear_arith)
            requires
                pow2(bits) == 8 * pow2((bits - 3) as nat),
        ;
        assert(16 * ceil8(pow2(bits)) == 2 * pow2(bits));
    }
}

} // verus!
