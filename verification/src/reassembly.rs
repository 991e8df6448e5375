//! Cutting a large payload into pieces, and collecting them again.
//!
//! A payload larger than [`CHUNK_SIZE`] travels as
//! several packets, which may arrive in any order. Every piece arrives once
//! (retransmits are dropped by sequence number before they get here), so
//! counting bytes is enough to know when the whole payload is in.

use vstd::prelude::*;
use vstd::set_lib;

use crate::bytes;
use crate::bytes::overwrite;
use crate::frame::{PacketView, CHUNK_SIZE};

verus! {

/// How many packets a payload of `len` bytes takes.
pub open spec fn piece_count(len: int) -> int {
    (len + CHUNK_SIZE - 1) / CHUNK_SIZE as int
}

/// The `i`th piece of a payload: [`CHUNK_SIZE`] bytes, fewer at the end.
pub open spec fn piece(payload: Seq<u8>, i: int) -> Seq<u8> {
    let from = CHUNK_SIZE * i;
    payload.subrange(
        from,
        if from + CHUNK_SIZE <= payload.len() {
            from + CHUNK_SIZE
        } else {
            payload.len() as int
        },
    )
}

/// A piece is part of its payload, and not empty.
pub proof fn lemma_piece_is_inside(payload: Seq<u8>, i: int)
    requires
        0 <= i < piece_count(payload.len() as int),
    ensures
        CHUNK_SIZE * i < payload.len(),
        0 < piece(payload, i).len() <= CHUNK_SIZE,
        i + 1 < piece_count(payload.len() as int) ==> piece(payload, i).len() == CHUNK_SIZE,
        i + 1 == piece_count(payload.len() as int) ==> CHUNK_SIZE * i + piece(payload, i).len()
            == payload.len(),
{
}

/// How many packets a payload of `size` bytes takes.
pub fn count_pieces(size: usize) -> (n: usize)
    ensures
        n == piece_count(size as int),
{
    size / CHUNK_SIZE + (if size % CHUNK_SIZE == 0 {
        0usize
    } else {
        1usize
    })
}

/// One chunked payload being collected.
pub struct Reassembly {
    pub buf: Vec<u8>,
    /// Bytes received so far; complete once it reaches `buf.len()`.
    pub have: u64,
}

/// What a [`Reassembly`] holds.
#[verifier::ext_equal]
pub struct ReassemblyView {
    pub buf: Seq<u8>,
    pub have: nat,
}

impl View for Reassembly {
    type V = ReassemblyView;

    open spec fn view(&self) -> ReassemblyView {
        ReassemblyView { buf: self.buf@, have: self.have as nat }
    }
}

/// Nothing received yet of `total` bytes.
pub open spec fn empty_of(total: nat) -> ReassemblyView {
    ReassemblyView { buf: Seq::new(total, |i: int| 0u8), have: 0 }
}

impl ReassemblyView {
    /// The payload is less than 4 GiB, and no more of it was received than it
    /// has.
    pub open spec fn bounded(self) -> bool {
        self.have <= self.buf.len() <= u32::MAX
    }

    /// With `piece` received at offset `at`.
    pub open spec fn with(self, at: int, piece: Seq<u8>) -> ReassemblyView {
        ReassemblyView {
            buf: bytes::overwritten(self.buf, at, piece),
            have: self.have + piece.len(),
        }
    }
}

impl Reassembly {
    pub fn new(total: u32) -> (r: Reassembly)
        ensures
            r@ == empty_of(total as nat),
    {
        let r = Reassembly { buf: vec![0; total as usize], have: 0 };
        assert(r.buf@ =~= empty_of(total as nat).buf);
        r
    }

    /// Receive `piece` at offset `at`.
    pub fn put(&mut self, at: usize, piece: &[u8])
        requires
            at + piece@.len() <= old(self)@.buf.len(),
            old(self)@.have + piece@.len() <= u64::MAX,
        ensures
            final(self)@ == old(self)@.with(at as int, piece@),
    {
        overwrite(&mut self.buf, at, piece);
        self.have = self.have + piece.len() as u64;
    }
}

// ---------------------------------------------------------------------------
// Collecting
// ---------------------------------------------------------------------------

/// A piece of a payload: the bytes from an offset on.
#[verifier::ext_equal]
pub struct Part {
    pub at: int,
    pub bytes: Seq<u8>,
}

impl Part {
    /// The part has the payload's byte `b`.
    pub open spec fn holds(self, b: int) -> bool {
        self.at <= b < self.at + self.bytes.len()
    }

    /// Not empty, and what `payload` has at that place.
    pub open spec fn is_of(self, payload: Seq<u8>) -> bool {
        &&& 0 <= self.at
        &&& 0 < self.bytes.len()
        &&& self.at + self.bytes.len() <= payload.len()
        &&& self.bytes == payload.subrange(self.at, self.at + self.bytes.len())
    }

    /// The parts have no byte in common.
    pub open spec fn apart(self, other: Part) -> bool {
        ||| self.at + self.bytes.len() <= other.at
        ||| other.at + other.bytes.len() <= self.at
    }
}

/// One of `parts` has the payload's byte `b`.
pub open spec fn is_held(parts: Seq<Part>, b: int) -> bool {
    exists|k: int| 0 <= k < parts.len() && (#[trigger] parts[k]).holds(b)
}

/// `parts` are parts of `payload`, in any order, and have each of its bytes
/// exactly once.
pub open spec fn tiles(parts: Seq<Part>, payload: Seq<u8>) -> bool {
    &&& forall|k: int| 0 <= k < parts.len() ==> (#[trigger] parts[k]).is_of(payload)
    &&& forall|i: int, j: int|
        0 <= i < j < parts.len() ==> (#[trigger] parts[i]).apart(#[trigger] parts[j])
    &&& forall|b: int| 0 <= b < payload.len() ==> #[trigger] is_held(parts, b)
}

/// `parts` received, one after the other, of a payload of `total` bytes.
pub open spec fn gathered(total: nat, parts: Seq<Part>) -> ReassemblyView
    decreases parts.len(),
{
    if parts.len() == 0 {
        empty_of(total)
    } else {
        gathered(total, parts.drop_last()).with(parts.last().at, parts.last().bytes)
    }
}

/// The bytes that the first `k` of `parts` have.
spec fn held(parts: Seq<Part>, k: int) -> Set<int> {
    Set::new(|b: int| is_held(parts.take(k), b))
}

/// The parts received so far put their bytes in place, and are counted.
proof fn lemma_gathered(parts: Seq<Part>, payload: Seq<u8>, k: int)
    requires
        tiles(parts, payload),
        0 <= k <= parts.len(),
    ensures
        gathered(payload.len(), parts.take(k)).buf.len() == payload.len(),
        held(parts, k).finite(),
        gathered(payload.len(), parts.take(k)).have == held(parts, k).len(),
        forall|b: int| #[trigger]
            is_held(parts.take(k), b) ==> 0 <= b < payload.len() && gathered(
                payload.len(),
                parts.take(k),
            ).buf[b] == payload[b],
    decreases k,
{
    let now = parts.take(k);
    if k == 0 {
        assert(held(parts, 0) =~= Set::empty());
    } else {
        let before = parts.take(k - 1);
        let p = parts[k - 1];
        lemma_gathered(parts, payload, k - 1);
        assert(now.drop_last() =~= before);
        assert(now.last() == p);
        assert(p.is_of(payload));
        let range = set_lib::set_int_range(p.at, p.at + p.bytes.len());
        set_lib::lemma_int_range(p.at, p.at + p.bytes.len());
        assert forall|b: int| #[trigger] is_held(now, b) <==> is_held(before, b) || p.holds(b) by {
            if is_held(now, b) {
                let i = choose|i: int| 0 <= i < now.len() && (#[trigger] now[i]).holds(b);
                if i < k - 1 {
                    assert(before[i].holds(b));
                }
            }
            if is_held(before, b) {
                let i = choose|i: int| 0 <= i < before.len() && (#[trigger] before[i]).holds(b);
                assert(now[i].holds(b));
            }
            if p.holds(b) {
                assert(now[k - 1].holds(b));
            }
        }
        assert(held(parts, k) =~= held(parts, k - 1) + range);
        assert(held(parts, k - 1).disjoint(range)) by {
            assert forall|b: int| held(parts, k - 1).contains(b) implies !range.contains(b) by {
                let i = choose|i: int| 0 <= i < before.len() && (#[trigger] before[i]).holds(b);
                assert(parts[i].apart(parts[k - 1]));
            }
        }
        set_lib::lemma_set_disjoint_lens(held(parts, k - 1), range);
        let g = gathered(payload.len(), now);
        assert forall|b: int| #[trigger] is_held(now, b) implies 0 <= b < payload.len()
            && g.buf[b] == payload[b] by {
            if p.holds(b) {
                assert(p.bytes[b - p.at] == payload[b]);
            } else {
                assert(is_held(before, b));
            }
        }
    }
}

/// Parts short of all of them fall short of the payload's length; all of them
/// are the payload.
pub proof fn lemma_all_parts_make_the_payload(parts: Seq<Part>, payload: Seq<u8>, k: int)
    requires
        tiles(parts, payload),
        0 <= k <= parts.len(),
    ensures
        gathered(payload.len(), parts.take(k)).buf.len() == payload.len(),
        k < parts.len() ==> gathered(payload.len(), parts.take(k)).have < payload.len(),
        k == parts.len() ==> gathered(payload.len(), parts.take(k)) == (ReassemblyView {
            buf: payload,
            have: payload.len(),
        }),
{
    let now = parts.take(k);
    let g = gathered(payload.len(), now);
    let all = set_lib::set_int_range(0, payload.len() as int);
    lemma_gathered(parts, payload, k);
    set_lib::lemma_int_range(0, payload.len() as int);
    assert(held(parts, k).subset_of(all));
    set_lib::lemma_len_subset(held(parts, k), all);
    if k < parts.len() {
        let p = parts[k];
        assert(p.is_of(payload));
        assert(!held(parts, k).contains(p.at)) by {
            if held(parts, k).contains(p.at) {
                let i = choose|i: int| 0 <= i < now.len() && (#[trigger] now[i]).holds(p.at);
                assert(parts[i].apart(parts[k]));
            }
        }
        assert(all.contains(p.at));
        if held(parts, k).len() == all.len() {
            set_lib::lemma_subset_equality(held(parts, k), all);
        }
    } else {
        assert(now =~= parts);
        assert(held(parts, k) =~= all);
        assert forall|b: int| 0 <= b < payload.len() implies g.buf[b] == payload[b] by {
            assert(is_held(now, b));
        }
        assert(g.buf =~= payload);
    }
}

/// What is there, under `id`, of a payload of `total` bytes.
pub open spec fn there_of(
    partial: Map<u32, ReassemblyView>,
    id: u32,
    total: nat,
) -> ReassemblyView {
    if partial.contains_key(id) {
        partial[id]
    } else {
        empty_of(total)
    }
}

/// What receiving `part`, a piece of a payload of `total` bytes, does to the
/// payloads being collected: it is put in its place, and `out` is the payload
/// where it was the last one missing. A piece that does not fit is left open.
pub open spec fn collects(
    before: Map<u32, ReassemblyView>,
    after: Map<u32, ReassemblyView>,
    id: u32,
    total: nat,
    part: Part,
    out: Option<Seq<u8>>,
) -> bool {
    let there = there_of(before, id, total);
    let grown = there.with(part.at, part.bytes);
    there.buf.len() == total && part.at + part.bytes.len() <= total ==> if grown.have < total {
        after == before.insert(id, grown) && out is None
    } else {
        after == before.remove(id) && out == Some(grown.buf)
    }
}

/// What is collected once the first `k` parts are in, short of all of them.
proof fn lemma_collected(
    partial: Seq<Map<u32, ReassemblyView>>,
    outs: Seq<Option<Seq<u8>>>,
    id: u32,
    parts: Seq<Part>,
    payload: Seq<u8>,
    k: int,
)
    requires
        tiles(parts, payload),
        partial.len() == parts.len() + 1,
        outs.len() == parts.len(),
        !partial[0].contains_key(id),
        forall|i: int|
            0 <= i < parts.len() ==> collects(
                partial[i],
                partial[i + 1],
                id,
                payload.len(),
                parts[i],
                #[trigger] outs[i],
            ),
        0 <= k < parts.len(),
    ensures
        there_of(partial[k], id, payload.len()) == gathered(payload.len(), parts.take(k)),
        partial[k].remove(id) == partial[0],
        forall|i: int| 0 <= i < k ==> #[trigger] outs[i] is None,
    decreases k,
{
    if k == 0 {
        assert(parts.take(0) =~= Seq::empty());
        assert(partial[0].remove(id) =~= partial[0]);
    } else {
        lemma_collected(partial, outs, id, parts, payload, k - 1);
        lemma_all_parts_make_the_payload(parts, payload, k - 1);
        lemma_all_parts_make_the_payload(parts, payload, k);
        let now = parts.take(k);
        assert(now.drop_last() =~= parts.take(k - 1));
        assert(now.last() == parts[k - 1]);
        assert(parts[k - 1].is_of(payload));
        assert(collects(
            partial[k - 1],
            partial[k],
            id,
            payload.len(),
            parts[k - 1],
            outs[k - 1],
        ));
        assert(partial[k].remove(id) =~= partial[k - 1].remove(id));
    }
}

/// However a payload is cut, and in whatever order its parts come: each but the
/// last leaves it incomplete, the last completes it, and nothing of it stays
/// behind. `partial` is what is being collected, before the first part and
/// behind each; `outs` is what each part completes.
pub proof fn lemma_parts_are_collected(
    partial: Seq<Map<u32, ReassemblyView>>,
    outs: Seq<Option<Seq<u8>>>,
    id: u32,
    parts: Seq<Part>,
    payload: Seq<u8>,
)
    requires
        tiles(parts, payload),
        partial.len() == parts.len() + 1,
        outs.len() == parts.len(),
        !partial[0].contains_key(id),
        forall|i: int|
            0 <= i < parts.len() ==> collects(
                partial[i],
                partial[i + 1],
                id,
                payload.len(),
                parts[i],
                #[trigger] outs[i],
            ),
    ensures
        forall|i: int|
            0 <= i < parts.len() ==> #[trigger] outs[i] == if i + 1 < parts.len() {
                None
            } else {
                Some(payload)
            },
        forall|i: int|
            0 <= i < parts.len() ==> there_of(
                #[trigger] partial[i],
                id,
                payload.len(),
            ).buf.len() == payload.len(),
        partial[parts.len() as int] == partial[0],
{
    let n = parts.len() as int;
    assert forall|i: int| 0 <= i < n implies there_of(
        #[trigger] partial[i],
        id,
        payload.len(),
    ).buf.len() == payload.len() by {
        lemma_collected(partial, outs, id, parts, payload, i);
        lemma_all_parts_make_the_payload(parts, payload, i);
    }
    if n > 0 {
        lemma_collected(partial, outs, id, parts, payload, n - 1);
        lemma_all_parts_make_the_payload(parts, payload, n - 1);
        lemma_all_parts_make_the_payload(parts, payload, n);
        assert(parts.take(n).drop_last() =~= parts.take(n - 1));
        assert(parts.take(n).last() == parts[n - 1]);
        assert(parts[n - 1].is_of(payload));
        assert(collects(
            partial[n - 1],
            partial[n],
            id,
            payload.len(),
            parts[n - 1],
            outs[n - 1],
        ));
    }
}

/// The part that a packet carries.
pub open spec fn part_of(p: PacketView) -> Part {
    Part { at: p.chunk->Some_0.offset as int, bytes: p.payload }
}

/// The parts that packets carry.
pub open spec fn parts_of(packets: Seq<PacketView>) -> Seq<Part> {
    packets.map_values(|p: PacketView| part_of(p))
}

/// The packet carries a piece of a payload of `total` bytes, under `id`.
pub open spec fn is_piece(p: PacketView, id: u32, total: nat) -> bool {
    &&& p.chunk is Some
    &&& p.chunk->Some_0.id == id
    &&& p.chunk->Some_0.total_size == total
}

/// `packets` carry `payload` under the chunk id `id`: cut anywhere, in any
/// order, each piece under a sequence number of its own.
pub open spec fn carry(packets: Seq<PacketView>, payload: Seq<u8>, id: u32) -> bool {
    &&& payload.len() <= u32::MAX
    &&& forall|k: int|
        0 <= k < packets.len() ==> is_piece(#[trigger] packets[k], id, payload.len())
    &&& forall|i: int, j: int|
        0 <= i < j < packets.len() ==> (#[trigger] packets[i]).seq != (#[trigger] packets[j]).seq
    &&& tiles(parts_of(packets), payload)
}

} // verus!
