use ringbuffer::AllocRingBuffer;
use ringbuffer::RingBuffer;
use vstd::prelude::*;

use crate::scalar::Scalar;
use crate::scalar::Vector;

verus! {

/// How many past positions a body remembers.
pub const MAXIMUM_POSITION_HISTORY: usize = 1000;

/// `ringbuffer::AllocRingBuffer`, the bounded queue that holds a trail. Its
/// fields are not read here.
#[verifier::external_type_specification]
#[verifier::external_body]
#[verifier::reject_recursive_types(T)]
pub struct ExAllocRingBuffer<T>(AllocRingBuffer<T>);

/// The items that a ring holds, the oldest first.
pub uninterp spec fn ring_items(ring: AllocRingBuffer<(u64, u64)>) -> Seq<(u64, u64)>;

/// The number of items that a ring was made to hold.
pub uninterp spec fn ring_capacity(ring: AllocRingBuffer<(u64, u64)>) -> nat;

/// The number of items that were ever put into a ring.
pub uninterp spec fn ring_written(ring: AllocRingBuffer<(u64, u64)>) -> nat;

/// `AllocRingBuffer::new`: an empty ring of the given capacity, into which
/// nothing was written yet. The crate refuses a capacity of zero, and rounds
/// the capacity up to a power of two to size its allocation, which the bound
/// keeps within reach on every machine.
#[verifier::external_body]
fn ring_new(capacity: usize) -> (ring: AllocRingBuffer<(u64, u64)>)
    requires
        0 < capacity <= 0x10000,
    ensures
        ring_items(ring) == Seq::<(u64, u64)>::empty(),
        ring_capacity(ring) == capacity,
        ring_written(ring) == 0,
{
    AllocRingBuffer::new(capacity)
}

/// `RingBuffer::enqueue` on an `AllocRingBuffer`: the item becomes the newest
/// one; a ring that was full gives up its oldest item to make room, and hands
/// it back. The crate counts its writes in a `usize` that it increments on
/// every call, so a ring takes no more than `usize::MAX` of them.
#[verifier::external_body]
fn ring_enqueue(ring: &mut AllocRingBuffer<(u64, u64)>, item: (u64, u64)) -> (dropped: Option<
    (u64, u64),
>)
    requires
        ring_written(*old(ring)) < usize::MAX,
    ensures
        ring_capacity(*final(ring)) == ring_capacity(*old(ring)),
        ring_written(*final(ring)) == ring_written(*old(ring)) + 1,
        ring_items(*old(ring)).len() == ring_capacity(*old(ring)) ==> ring_items(*final(ring))
            == ring_items(*old(ring)).drop_first().push(item) && dropped == Some(
            ring_items(*old(ring)).first(),
        ),
        ring_items(*old(ring)).len() != ring_capacity(*old(ring)) ==> ring_items(*final(ring))
            == ring_items(*old(ring)).push(item) && dropped is None,
    no_unwind
{
    ring.enqueue(item)
}

/// `RingBuffer::to_vec` on an `AllocRingBuffer`: a copy of the items, the
/// oldest first.
#[verifier::external_body]
fn ring_to_vec(ring: &AllocRingBuffer<(u64, u64)>) -> (items: Vec<(u64, u64)>)
    ensures
        items@ == ring_items(*ring),
{
    ring.to_vec()
}

/// The scalars that a pair of bit patterns stands for.
pub open spec fn as_vector(raw: (u64, u64)) -> Vector {
    (Scalar { bits: raw.0 }, Scalar { bits: raw.1 })
}

/// A history after one more position: the position comes last, and a history
/// that was full loses its oldest entry.
pub open spec fn recorded(history: Seq<Vector>, pos: Vector) -> Seq<Vector> {
    if history.len() < MAXIMUM_POSITION_HISTORY {
        history.push(pos)
    } else {
        history.drop_first().push(pos)
    }
}

/// A history never outgrows its bound, and holds the newest positions: what
/// it held and the new position, without the oldest where that is one too
/// many.
pub proof fn lemma_recorded_keeps_the_latest(history: Seq<Vector>, pos: Vector)
    requires
        history.len() <= MAXIMUM_POSITION_HISTORY,
    ensures
        recorded(history, pos).len() <= MAXIMUM_POSITION_HISTORY,
        recorded(history, pos).last() == pos,
        recorded(history, pos) == history.push(pos).skip(
            if history.len() == MAXIMUM_POSITION_HISTORY {
                1
            } else {
                0
            },
        ),
{
    if history.len() == MAXIMUM_POSITION_HISTORY {
        assert(history.drop_first().push(pos) =~= history.push(pos).skip(1));
    } else {
        assert(history.push(pos) =~= history.push(pos).skip(0));
    }
}

/// The most recent positions of one body, the oldest first: at most
/// `MAXIMUM_POSITION_HISTORY` of them.
pub struct Trail {
    ring: AllocRingBuffer<(u64, u64)>,
    /// No fewer than the writes that `ring` has taken.
    written: usize,
}

impl View for Trail {
    type V = Seq<Vector>;

    closed spec fn view(&self) -> Seq<Vector> {
        ring_items(self.ring).map_values(|raw: (u64, u64)| as_vector(raw))
    }
}

impl Trail {
    #[verifier::type_invariant]
    spec fn well_formed(self) -> bool {
        &&& ring_capacity(self.ring) == MAXIMUM_POSITION_HISTORY
        &&& ring_items(self.ring).len() <= MAXIMUM_POSITION_HISTORY
        &&& ring_written(self.ring) <= self.written
    }

    /// A trail without positions.
    pub fn new() -> (trail: Trail)
        ensures
            trail@ == Seq::<Vector>::empty(),
    {
        let ring = ring_new(MAXIMUM_POSITION_HISTORY);
        let trail = Trail { ring, written: 0 };
        assert(trail@ =~= Seq::<Vector>::empty());
        trail
    }

    /// Moves the positions into a fresh ring, which has taken only as many
    /// writes as it holds positions.
    fn renew(&mut self)
        ensures
            final(self)@ == old(self)@,
            final(self).written <= MAXIMUM_POSITION_HISTORY,
    {
        proof {
            use_type_invariant(&*self);
        }
        let items = ring_to_vec(&self.ring);
        let mut fresh = ring_new(MAXIMUM_POSITION_HISTORY);
        let mut i: usize = 0;
        while i < items.len()
            invariant
                0 <= i <= items.len() <= MAXIMUM_POSITION_HISTORY,
                ring_capacity(fresh) == MAXIMUM_POSITION_HISTORY,
                ring_written(fresh) == i,
                ring_items(fresh) == items@.take(i as int),
            decreases items.len() - i,
        {
            let _ = ring_enqueue(&mut fresh, items[i]);
            assert(items@.take(i as int).push(items@[i as int]) =~= items@.take(i + 1));
            i = i + 1;
        }
        assert(items@.take(items.len() as int) =~= items@);
        *self = Trail { ring: fresh, written: items.len() };
    }

    /// Records a position as the newest one.
    pub fn record(&mut self, pos: Vector)
        ensures
            final(self)@ == recorded(old(self)@, pos),
            final(self)@.len() <= MAXIMUM_POSITION_HISTORY,
    {
        proof {
            use_type_invariant(&*self);
        }
        if self.written == usize::MAX {
            self.renew();
        }
        proof {
            use_type_invariant(&*self);
        }
        let ghost before = ring_items(self.ring);
        self.written = self.written + 1;
        let _ = ring_enqueue(&mut self.ring, (pos.0.bits, pos.1.bits));
        proof {
            let lift = |raw: (u64, u64)| as_vector(raw);
            assert(as_vector((pos.0.bits, pos.1.bits)) == pos);
            if before.len() == MAXIMUM_POSITION_HISTORY {
                assert(before.drop_first().push((pos.0.bits, pos.1.bits)).map_values(lift)
                    =~= before.map_values(lift).drop_first().push(pos));
            } else {
                assert(before.push((pos.0.bits, pos.1.bits)).map_values(lift)
                    =~= before.map_values(lift).push(pos));
            }
        }
    }

    /// The recorded positions, the oldest first.
    pub fn positions(&self) -> (all: Vec<Vector>)
        ensures
            all@ == self@,
            all@.len() <= MAXIMUM_POSITION_HISTORY,
    {
        proof {
            use_type_invariant(self);
        }
        let items = ring_to_vec(&self.ring);
        let mut all: Vec<Vector> = Vec::new();
        let mut i: usize = 0;
        while i < items.len()
            invariant
                0 <= i <= items.len(),
                all@ == items@.take(i as int).map_values(|raw: (u64, u64)| as_vector(raw)),
            decreases items.len() - i,
        {
            let raw = items[i];
            all.push((Scalar { bits: raw.0 }, Scalar { bits: raw.1 }));
            assert(items@.take(i + 1).map_values(|raw: (u64, u64)| as_vector(raw))
                =~= items@.take(i as int).map_values(|raw: (u64, u64)| as_vector(raw)).push(
                as_vector(raw),
            ));
            i = i + 1;
        }
        assert(items@.take(items.len() as int) =~= items@);
        all
    }
}

} // verus!
