//! The instrument queue: the ring protocol over a region of bytes.
//!
//! Two cursors in the header count the records written and the records
//! read, each wrapping at 2^64. The records in flight are those between
//! the read cursor and the write cursor; record number `c` lives in slot
//! `c & mask`. The writer fills a slot and only then publishes the new
//! write cursor; the reader copies a slot out and only then publishes the
//! new read cursor. The functions here decide and compute; how a cursor is
//! loaded and stored between two processes is up to the caller that maps
//! the region.

use crate::transport::layout::{
    get_u64, lemma_record_at_same, lemma_u64_at_same, put_u64, read_record, record_at, same_bytes,
    same_elsewhere, u64_at, write_record, InstrumentId, OrderRecord, CAPACITY_MASK_OFFSET,
    CREATED_AT_OFFSET, HEADER_SIZE, MAX_SLOTS, READ_CURSOR_OFFSET, SLOT_SIZE, WRITE_CURSOR_OFFSET,
};
use crate::types::Timestamp;
use vstd::prelude::*;

verus! {

/// Why the transport refused.
#[derive(Debug, Clone, Copy, PartialEq, Eq, Structural)]
pub enum TransportError {
    /// Every slot holds a record that has not been read yet.
    QueueFull,
    /// The region is too small for the header, or its size and header do
    /// not describe a ring.
    ChannelSizeMismatch,
    /// The record is for another instrument than the channel.
    InstrumentMismatch,
    /// More slots were asked for than a region may have.
    CapacityTooLarge,
}

/// Whether `mask` is the capacity mask of a ring: one less than a power of
/// two that is not above the most slots a region may have.
pub open spec fn is_mask(mask: u64) -> bool {
    mask < MAX_SLOTS && mask & ((mask + 1) as u64) == 0
}

/// The cursor `by` records after `cursor`; cursors wrap at 2^64.
pub open spec fn advance(cursor: u64, by: int) -> u64 {
    ((cursor + by) % 0x1_0000_0000_0000_0000) as u64
}

/// How many records lie between the read cursor and the write cursor.
pub open spec fn distance(read: u64, write: u64) -> int {
    (write - read) % 0x1_0000_0000_0000_0000
}

/// Where the slot with index `slot` starts.
pub open spec fn slot_offset(slot: u64) -> int {
    HEADER_SIZE + slot * SLOT_SIZE
}

/// The write cursor stored in a region.
pub open spec fn write_cursor(bytes: Seq<u8>) -> u64 {
    u64_at(bytes, WRITE_CURSOR_OFFSET as int)
}

/// The read cursor stored in a region.
pub open spec fn read_cursor(bytes: Seq<u8>) -> u64 {
    u64_at(bytes, READ_CURSOR_OFFSET as int)
}

/// The capacity mask stored in a region.
pub open spec fn capacity_mask(bytes: Seq<u8>) -> u64 {
    u64_at(bytes, CAPACITY_MASK_OFFSET as int)
}

/// The creation time stored in a region.
pub open spec fn created_at(bytes: Seq<u8>) -> u64 {
    u64_at(bytes, CREATED_AT_OFFSET as int)
}

/// Whether a region describes a ring: its mask is a capacity mask, its
/// size is that of the header and as many slots as the mask says, and no
/// more records are in flight than it has slots.
pub open spec fn region_wf(bytes: Seq<u8>) -> bool {
    &&& is_mask(capacity_mask(bytes))
    &&& bytes.len() == HEADER_SIZE + (capacity_mask(bytes) + 1) * SLOT_SIZE
    &&& distance(read_cursor(bytes), write_cursor(bytes)) <= capacity_mask(bytes) + 1
}

/// The records in flight in a region, oldest first.
pub open spec fn pending_of(bytes: Seq<u8>) -> Seq<OrderRecord> {
    Seq::new(
        distance(read_cursor(bytes), write_cursor(bytes)) as nat,
        |k: int|
            record_at(bytes, slot_offset(advance(read_cursor(bytes), k) & capacity_mask(bytes))),
    )
}

/// The records in flight after a write of `record` to a ring of `capacity`
/// slots: the record joins at the back unless the ring is full.
pub open spec fn after_write(pending: Seq<OrderRecord>, capacity: nat, record: OrderRecord) -> Seq<
    OrderRecord,
> {
    if pending.len() < capacity {
        pending.push(record)
    } else {
        pending
    }
}

/// The records in flight after the writes of `records`, in order.
pub open spec fn after_writes(
    pending: Seq<OrderRecord>,
    capacity: nat,
    records: Seq<OrderRecord>,
) -> Seq<OrderRecord>
    decreases records.len(),
{
    if records.len() == 0 {
        pending
    } else {
        after_writes(after_write(pending, capacity, records[0]), capacity, records.skip(1))
    }
}

/// What a read returns: the oldest record in flight, if there is one.
pub open spec fn read_result(pending: Seq<OrderRecord>) -> Option<OrderRecord> {
    if pending.len() > 0 {
        Some(pending[0])
    } else {
        None
    }
}

/// The records in flight after a read.
pub open spec fn after_read(pending: Seq<OrderRecord>) -> Seq<OrderRecord> {
    if pending.len() > 0 {
        pending.skip(1)
    } else {
        pending
    }
}

/// What `count` reads in a row return, in order.
pub open spec fn read_results(pending: Seq<OrderRecord>, count: nat) -> Seq<Option<OrderRecord>>
    decreases count,
{
    if count == 0 {
        Seq::empty()
    } else {
        seq![read_result(pending)] + read_results(after_read(pending), (count - 1) as nat)
    }
}

/// The records in flight after `count` reads in a row.
pub open spec fn after_reads(pending: Seq<OrderRecord>, count: nat) -> Seq<OrderRecord>
    decreases count,
{
    if count == 0 {
        pending
    } else {
        after_reads(after_read(pending), (count - 1) as nat)
    }
}

/// Writes that find room join the back of the ring in the order in which
/// they are made.
pub proof fn law_writes_in_order(
    pending: Seq<OrderRecord>,
    capacity: nat,
    records: Seq<OrderRecord>,
)
    requires
        pending.len() + records.len() <= capacity,
    ensures
        after_writes(pending, capacity, records) == pending + records,
    decreases records.len(),
{
    if records.len() == 0 {
        assert(pending + records =~= pending);
    } else {
        law_writes_in_order(pending.push(records[0]), capacity, records.skip(1));
        assert(pending.push(records[0]) + records.skip(1) =~= pending + records);
    }
}

/// Reads return the records in flight oldest first, one each, and leave
/// the rest in flight.
pub proof fn law_reads_in_order(pending: Seq<OrderRecord>, count: nat)
    requires
        count <= pending.len(),
    ensures
        read_results(pending, count) == Seq::new(count, |i: int| Some(pending[i])),
        after_reads(pending, count) == pending.skip(count as int),
    decreases count,
{
    if count == 0 {
        assert(read_results(pending, count) =~= Seq::new(count, |i: int| Some(pending[i])));
        assert(pending.skip(0) =~= pending);
    } else {
        let rest = pending.skip(1);
        law_reads_in_order(rest, (count - 1) as nat);
        assert(read_results(pending, count) =~= Seq::new(count, |i: int| Some(pending[i])));
        assert(rest.skip(count - 1) =~= pending.skip(count as int));
    }
}

/// The round trip: records written to an empty ring that has room for
/// them are read back the same and in the same order, after which the
/// ring is empty again and a further read returns nothing.
pub proof fn law_round_trip(capacity: nat, records: Seq<OrderRecord>)
    requires
        records.len() <= capacity,
    ensures
        ({
            let written = after_writes(Seq::empty(), capacity, records);
            &&& written == records
            &&& read_results(written, records.len()) == Seq::new(
                records.len(),
                |i: int| Some(records[i]),
            )
            &&& after_reads(written, records.len()) == Seq::<OrderRecord>::empty()
            &&& read_result(after_reads(written, records.len())) == None::<OrderRecord>
        }),
{
    law_writes_in_order(Seq::empty(), capacity, records);
    assert(Seq::<OrderRecord>::empty() + records =~= records);
    law_reads_in_order(records, records.len());
    assert(records.skip(records.len() as int) =~= Seq::<OrderRecord>::empty());
}

/// A full ring takes no record: a write to it leaves the records in
/// flight as they are.
pub proof fn law_full_ring_refuses(
    pending: Seq<OrderRecord>,
    capacity: nat,
    record: OrderRecord,
)
    requires
        pending.len() == capacity,
    ensures
        after_write(pending, capacity, record) == pending,
{
}

/// No two records in flight share a slot, wherever the cursors stand: two
/// cursors less than a ring's length apart select different slots, also
/// where the slot index wraps round the ring and where the cursor itself
/// wraps at 2^64.
pub proof fn law_slots_in_flight_distinct(read: u64, first: int, second: int, mask: u64)
    requires
        is_mask(mask),
        0 <= first < second <= mask,
    ensures
        advance(read, first) & mask != advance(read, second) & mask,
{
    let a = advance(read, first);
    let b = advance(read, second);
    let d: u64 = (second - first) as u64;
    if a < b {
        assert(b - a == d);
        assert(a & mask != b & mask) by (bit_vector)
            requires
                mask & ((mask + 1) as u64) == 0,
                a < b,
                ((b - a) as u64) <= mask,
        ;
    } else {
        assert(a as int + d as int == b as int + 0x1_0000_0000_0000_0000);
        assert(a & mask != b & mask) by (bit_vector)
            requires
                mask & ((mask + 1) as u64) == 0,
                mask < 0xffff_ffff_ffff_ffffu64,
                0 < d <= mask,
                (a as u128) + (d as u128) == (b as u128) + 0x1_0000_0000_0000_0000u128,
        ;
    }
}

/// Every slot starts on an eight-byte boundary and lies wholly within the
/// region of a ring that has it.
pub proof fn law_slots_aligned(slot: u64, mask: u64)
    requires
        is_mask(mask),
        slot <= mask,
    ensures
        slot_offset(slot) % 8 == 0,
        HEADER_SIZE <= slot_offset(slot),
        slot_offset(slot) + SLOT_SIZE <= HEADER_SIZE + (mask + 1) * SLOT_SIZE,
{
}

/// A slot index got by masking lies within the ring.
pub proof fn lemma_slot_in_ring(cursor: u64, mask: u64)
    ensures
        cursor & mask <= mask,
{
    assert(cursor & mask <= mask) by (bit_vector);
}

/// The smallest power of two that is at least `capacity`, the slot count
/// that a ring asked to hold `capacity` records gets; `None` where that is
/// more than a region may have.
pub fn round_up_capacity(capacity: usize) -> (slots: Option<usize>)
    ensures
        match slots {
            Some(n) => {
                &&& is_mask((n - 1) as u64)
                &&& capacity <= n <= MAX_SLOTS
                &&& n == 1 || n / 2 < capacity
            },
            None => capacity > MAX_SLOTS,
        },
{
    if capacity > MAX_SLOTS {
        return None;
    }
    let mut slots: usize = 1;
    assert(0u64 & 1u64 == 0) by (bit_vector);
    while slots < capacity
        invariant
            1 <= slots <= MAX_SLOTS,
            capacity <= MAX_SLOTS,
            ((slots - 1) as u64) & (slots as u64) == 0,
            slots == 1 || slots / 2 < capacity,
        decreases MAX_SLOTS - slots,
    {
        let ghost before: u64 = slots as u64;
        assert(before < 0x0100_0000);
        slots = slots * 2;
        let ghost after: u64 = slots as u64;
        assert(((after - 1) as u64) & after == 0 && after <= 0x0100_0000) by (bit_vector)
            requires
                after == before * 2,
                before < 0x0100_0000,
                before >= 1,
                ((before - 1) as u64) & before == 0,
        ;
    }
    Some(slots)
}

/// The size of a region with `slots` slots.
pub fn region_size(slots: usize) -> (size: usize)
    requires
        slots <= MAX_SLOTS,
    ensures
        size == HEADER_SIZE + slots * SLOT_SIZE,
{
    HEADER_SIZE + slots * SLOT_SIZE
}

/// Whether `size` is the size of a ring's region: that of the header and
/// a power of two of slots, no more than a region may have, with no byte
/// over.
pub open spec fn ring_size(size: int) -> bool {
    let slots = (size - HEADER_SIZE) / (SLOT_SIZE as int);
    &&& size > HEADER_SIZE
    &&& size == HEADER_SIZE + slots * SLOT_SIZE
    &&& 1 <= slots <= MAX_SLOTS
    &&& is_mask((slots - 1) as u64)
}

/// The slot count of a region of `size` bytes, derived from its size
/// alone; `ChannelSizeMismatch` for a size that is not that of a ring's
/// region, such as one too small to hold the header.
pub fn slots_in_region(size: usize) -> (slots: Result<usize, TransportError>)
    ensures
        slots is Ok <==> ring_size(size as int),
        slots matches Ok(n) ==> n == (size - HEADER_SIZE) / (SLOT_SIZE as int) && size
            == HEADER_SIZE + n * SLOT_SIZE && is_mask((n - 1) as u64) && 1 <= n <= MAX_SLOTS,
        slots matches Err(e) ==> e == TransportError::ChannelSizeMismatch,
{
    if size <= HEADER_SIZE {
        return Err(TransportError::ChannelSizeMismatch);
    }
    let slots: usize = (size - HEADER_SIZE) / SLOT_SIZE;
    if slots < 1 || slots > MAX_SLOTS || (size - HEADER_SIZE) % SLOT_SIZE != 0 {
        return Err(TransportError::ChannelSizeMismatch);
    }
    let mask: u64 = (slots - 1) as u64;
    if mask & (mask + 1) != 0 {
        return Err(TransportError::ChannelSizeMismatch);
    }
    Ok(slots)
}

/// Where the slot with index `slot` starts.
pub fn offset_of_slot(slot: u64) -> (offset: usize)
    requires
        slot < MAX_SLOTS,
    ensures
        offset == slot_offset(slot),
{
    HEADER_SIZE + (slot as usize) * SLOT_SIZE
}

/// Decides a write from the cursors as loaded: the slot to fill and the
/// write cursor to publish once it is filled, or `QueueFull` where as many
/// records are in flight as the ring has slots.
pub fn plan_write(write: u64, read: u64, mask: u64) -> (plan: Result<(u64, u64), TransportError>)
    requires
        is_mask(mask),
    ensures
        plan is Err <==> distance(read, write) >= mask + 1,
        match plan {
            Ok((slot, next)) => slot == write & mask && slot <= mask && next == advance(write, 1),
            Err(e) => e == TransportError::QueueFull,
        },
{
    let in_flight: u64 = write.wrapping_sub(read);
    if in_flight > mask {
        return Err(TransportError::QueueFull);
    }
    proof {
        lemma_slot_in_ring(write, mask);
    }
    Ok((write & mask, write.wrapping_add(1)))
}

/// Decides a read from the cursors as loaded: the slot to copy out and the
/// read cursor to publish once it is copied, or `None` where no record is
/// in flight.
pub fn plan_read(write: u64, read: u64, mask: u64) -> (plan: Option<(u64, u64)>)
    requires
        is_mask(mask),
    ensures
        plan is None <==> distance(read, write) == 0,
        plan matches Some((slot, next)) ==> slot == read & mask && slot <= mask && next
            == advance(read, 1),
{
    if read == write {
        return None;
    }
    proof {
        lemma_slot_in_ring(read, mask);
    }
    Some((read & mask, read.wrapping_add(1)))
}

/// How many records are in flight between the cursors as loaded.
pub fn occupancy(write: u64, read: u64) -> (n: u64)
    ensures
        n == distance(read, write),
{
    write.wrapping_sub(read)
}


/// A write done in two steps, the slot at the write cursor filled with
/// `record` and then the write cursor moved on by one, puts `record` behind
/// the records in flight and leaves those, the read cursor and the mask as
/// they were.
pub proof fn lemma_after_write(
    before: Seq<u8>,
    filled: Seq<u8>,
    after: Seq<u8>,
    record: OrderRecord,
)
    requires
        region_wf(before),
        distance(read_cursor(before), write_cursor(before)) <= capacity_mask(before),
        same_elsewhere(
            filled,
            before,
            slot_offset(write_cursor(before) & capacity_mask(before)),
            slot_offset(write_cursor(before) & capacity_mask(before)) + SLOT_SIZE,
        ),
        record_at(filled, slot_offset(write_cursor(before) & capacity_mask(before))) == record,
        same_elsewhere(after, filled, WRITE_CURSOR_OFFSET as int, WRITE_CURSOR_OFFSET + 8),
        write_cursor(after) == advance(write_cursor(before), 1),
    ensures
        region_wf(after),
        capacity_mask(after) == capacity_mask(before),
        read_cursor(after) == read_cursor(before),
        pending_of(after) == pending_of(before).push(record),
{
    let mask = capacity_mask(before);
    let read = read_cursor(before);
    let write = write_cursor(before);
    let index = write & mask;
    let offset = slot_offset(index);
    lemma_slot_in_ring(write, mask);
    assert(same_bytes(before, after, READ_CURSOR_OFFSET as int, READ_CURSOR_OFFSET + 8)) by {
        assert forall|i: int| READ_CURSOR_OFFSET <= i < READ_CURSOR_OFFSET + 8 implies before[i]
            == after[i] by {
            assert(before[i] == filled[i]);
            assert(filled[i] == after[i]);
        }
    }
    assert(same_bytes(before, after, CAPACITY_MASK_OFFSET as int, CAPACITY_MASK_OFFSET + 8)) by {
        assert forall|i: int|
            CAPACITY_MASK_OFFSET <= i < CAPACITY_MASK_OFFSET + 8 implies before[i] == after[i] by {
            assert(before[i] == filled[i]);
            assert(filled[i] == after[i]);
        }
    }
    lemma_u64_at_same(before, after, READ_CURSOR_OFFSET as int);
    lemma_u64_at_same(before, after, CAPACITY_MASK_OFFSET as int);
    assert(same_bytes(filled, after, offset, offset + SLOT_SIZE));
    lemma_record_at_same(filled, after, offset);
    let count = distance(read, write);
    assert(advance(read, count) == write);
    assert(distance(read, advance(write, 1)) == count + 1);
    assert(pending_of(after).len() == count + 1);
    assert forall|k: int| 0 <= k < count + 1 implies #[trigger] pending_of(after)[k]
        == pending_of(before).push(record)[k] by {
        let at = advance(read, k) & mask;
        lemma_slot_in_ring(advance(read, k), mask);
        if k < count {
            law_slots_in_flight_distinct(read, k, count, mask);
            assert(at != index);
            assert(same_bytes(before, after, slot_offset(at), slot_offset(at) + SLOT_SIZE)) by {
                assert forall|i: int|
                    slot_offset(at) <= i < slot_offset(at) + SLOT_SIZE implies before[i]
                    == after[i] by {
                    assert(before[i] == filled[i]);
                    assert(filled[i] == after[i]);
                }
            }
            lemma_record_at_same(before, after, slot_offset(at));
        }
    }
    assert(pending_of(after) =~= pending_of(before).push(record));
}

/// A read that moves the read cursor on by one, with a record in flight,
/// takes the oldest record out of flight, the one in the slot at the read
/// cursor, and leaves the others, the write cursor and the mask as they
/// were.
pub proof fn lemma_after_read(before: Seq<u8>, after: Seq<u8>)
    requires
        region_wf(before),
        distance(read_cursor(before), write_cursor(before)) > 0,
        same_elsewhere(after, before, READ_CURSOR_OFFSET as int, READ_CURSOR_OFFSET + 8),
        read_cursor(after) == advance(read_cursor(before), 1),
    ensures
        region_wf(after),
        capacity_mask(after) == capacity_mask(before),
        write_cursor(after) == write_cursor(before),
        pending_of(before).len() > 0,
        pending_of(before)[0] == record_at(
            before,
            slot_offset(read_cursor(before) & capacity_mask(before)),
        ),
        pending_of(after) == pending_of(before).skip(1),
{
    let mask = capacity_mask(before);
    let read = read_cursor(before);
    let write = write_cursor(before);
    let next = advance(read, 1);
    assert(same_bytes(before, after, WRITE_CURSOR_OFFSET as int, WRITE_CURSOR_OFFSET + 8));
    assert(same_bytes(before, after, CAPACITY_MASK_OFFSET as int, CAPACITY_MASK_OFFSET + 8));
    lemma_u64_at_same(before, after, WRITE_CURSOR_OFFSET as int);
    lemma_u64_at_same(before, after, CAPACITY_MASK_OFFSET as int);
    let count = distance(read, write);
    assert(advance(read, 0) == read);
    assert(distance(next, write) == count - 1);
    assert(pending_of(after).len() == count - 1);
    assert forall|k: int| 0 <= k < count - 1 implies #[trigger] pending_of(after)[k]
        == pending_of(before).skip(1)[k] by {
        assert(advance(next, k) == advance(read, k + 1));
        let at = advance(read, k + 1) & mask;
        lemma_slot_in_ring(advance(read, k + 1), mask);
        assert(same_bytes(before, after, slot_offset(at), slot_offset(at) + SLOT_SIZE));
        lemma_record_at_same(before, after, slot_offset(at));
    }
    assert(pending_of(after) =~= pending_of(before).skip(1));
}

/// One end of a channel: the region of one instrument and the ring
/// protocol on it.
pub struct InstrumentQueue {
    region: Vec<u8>,
    instrument_id: InstrumentId,
    slot_count: usize,
}

impl InstrumentQueue {
    /// The bytes of the region.
    pub closed spec fn bytes(&self) -> Seq<u8> {
        self.region@
    }

    /// The instrument that the channel is for.
    pub closed spec fn instrument(&self) -> InstrumentId {
        self.instrument_id
    }

    /// How many slots the ring has.
    pub closed spec fn slots(&self) -> nat {
        self.slot_count as nat
    }

    /// The queue's invariant: its region describes a ring with as many
    /// slots as the queue counts.
    pub open spec fn wf(&self) -> bool {
        &&& region_wf(self.bytes())
        &&& self.slots() == capacity_mask(self.bytes()) + 1
    }

    /// The records in flight, oldest first.
    pub open spec fn pending(&self) -> Seq<OrderRecord> {
        pending_of(self.bytes())
    }

    /// Creates the region of a channel for `instrument` that holds at
    /// least `capacity` records, stamped with the current time.
    pub fn new(instrument: InstrumentId, capacity: usize) -> (queue: Result<
        InstrumentQueue,
        TransportError,
    >)
        ensures
            queue is Ok <==> capacity <= MAX_SLOTS,
            match queue {
                Ok(q) => {
                    &&& q.wf()
                    &&& q.instrument() == instrument
                    &&& q.pending() == Seq::<OrderRecord>::empty()
                    &&& q.slots() >= capacity
                    &&& q.slots() == 1 || q.slots() / 2 < capacity
                },
                Err(e) => e == TransportError::CapacityTooLarge,
            },
    {
        let now = Timestamp::now();
        InstrumentQueue::create(instrument, capacity, nanos_since_epoch(&now))
    }

    /// Creates the region of a channel for `instrument` that holds at
    /// least `capacity` records: the slot count is `capacity` rounded up
    /// to a power of two, both cursors are zero, and the header carries
    /// the mask and `created_at`.
    pub fn create(instrument: InstrumentId, capacity: usize, created_at: u64) -> (queue: Result<
        InstrumentQueue,
        TransportError,
    >)
        ensures
            queue is Ok <==> capacity <= MAX_SLOTS,
            match queue {
                Ok(q) => {
                    &&& q.wf()
                    &&& q.instrument() == instrument
                    &&& q.pending() == Seq::<OrderRecord>::empty()
                    &&& q.slots() >= capacity
                    &&& q.slots() == 1 || q.slots() / 2 < capacity
                    &&& write_cursor(q.bytes()) == 0
                    &&& read_cursor(q.bytes()) == 0
                    &&& self::created_at(q.bytes()) == created_at
                },
                Err(e) => e == TransportError::CapacityTooLarge,
            },
    {
        let slot_count: usize = match round_up_capacity(capacity) {
            Some(n) => n,
            None => {
                return Err(TransportError::CapacityTooLarge);
            },
        };
        let mut region: Vec<u8> = vec![0u8; region_size(slot_count)];
        put_u64(&mut region, WRITE_CURSOR_OFFSET, 0);
        let ghost with_write = region@;
        put_u64(&mut region, READ_CURSOR_OFFSET, 0);
        let ghost with_read = region@;
        put_u64(&mut region, CAPACITY_MASK_OFFSET, (slot_count - 1) as u64);
        let ghost with_mask = region@;
        put_u64(&mut region, CREATED_AT_OFFSET, created_at);
        proof {
            lemma_u64_at_same(with_write, region@, WRITE_CURSOR_OFFSET as int);
            lemma_u64_at_same(with_read, region@, READ_CURSOR_OFFSET as int);
            lemma_u64_at_same(with_mask, region@, CAPACITY_MASK_OFFSET as int);
            assert(pending_of(region@) =~= Seq::<OrderRecord>::empty());
        }
        Ok(InstrumentQueue { region, instrument_id: instrument, slot_count })
    }

    /// Attaches to the region of the channel for `instrument`. The slot
    /// count is derived from the region's size alone; a region whose size
    /// or header does not describe a ring is refused.
    pub fn connect(instrument: InstrumentId, region: Vec<u8>) -> (queue: Result<
        InstrumentQueue,
        TransportError,
    >)
        ensures
            queue is Ok <==> connectable(region@),
            match queue {
                Ok(q) => {
                    &&& q.wf()
                    &&& q.instrument() == instrument
                    &&& q.bytes() == region@
                    &&& q.slots() == (region@.len() - HEADER_SIZE) / (SLOT_SIZE as int)
                },
                Err(e) => e == TransportError::ChannelSizeMismatch,
            },
    {
        let slot_count: usize = match slots_in_region(region.len()) {
            Ok(n) => n,
            Err(e) => {
                return Err(e);
            },
        };
        let mask = get_u64(&region, CAPACITY_MASK_OFFSET);
        if mask != (slot_count - 1) as u64 {
            return Err(TransportError::ChannelSizeMismatch);
        }
        let write = get_u64(&region, WRITE_CURSOR_OFFSET);
        let read = get_u64(&region, READ_CURSOR_OFFSET);
        if occupancy(write, read) > mask + 1 {
            return Err(TransportError::ChannelSizeMismatch);
        }
        Ok(InstrumentQueue { region, instrument_id: instrument, slot_count })
    }

    /// Writes `record` to the channel. Returns the index of the slot that
    /// took it.
    ///
    /// A record for another instrument is refused with
    /// `InstrumentMismatch`. Where every slot holds an unread record the
    /// write is refused with `QueueFull`. A refused write changes nothing.
    pub fn write(&mut self, record: &OrderRecord) -> (slot: Result<u64, TransportError>)
        requires
            old(self).wf(),
        ensures
            final(self).wf(),
            final(self).instrument() == old(self).instrument(),
            final(self).slots() == old(self).slots(),
            slot is Ok <==> record.instrument_id == old(self).instrument() && old(
                self,
            ).pending().len() < old(self).slots(),
            record.instrument_id == old(self).instrument() ==> final(self).pending()
                == after_write(old(self).pending(), old(self).slots(), *record),
            match slot {
                Ok(index) => {
                    &&& final(self).pending() == old(self).pending().push(*record)
                    &&& index == write_cursor(old(self).bytes()) & capacity_mask(old(self).bytes())
                    &&& write_cursor(final(self).bytes()) == advance(
                        write_cursor(old(self).bytes()),
                        1,
                    )
                    &&& read_cursor(final(self).bytes()) == read_cursor(old(self).bytes())
                },
                Err(e) => {
                    &&& final(self).bytes() == old(self).bytes()
                    &&& e == if record.instrument_id != old(self).instrument() {
                        TransportError::InstrumentMismatch
                    } else {
                        TransportError::QueueFull
                    }
                    &&& record.instrument_id == old(self).instrument() ==> old(
                        self,
                    ).pending().len() == old(self).slots()
                },
            },
    {
        if record.instrument_id != self.instrument_id {
            return Err(TransportError::InstrumentMismatch);
        }
        let ghost before = self.region@;
        let mask: u64 = (self.slot_count - 1) as u64;
        let write = get_u64(&self.region, WRITE_CURSOR_OFFSET);
        let read = get_u64(&self.region, READ_CURSOR_OFFSET);
        let (index, next) = match plan_write(write, read, mask) {
            Ok(plan) => plan,
            Err(e) => {
                return Err(e);
            },
        };
        let offset = offset_of_slot(index);
        write_record(&mut self.region, offset, record);
        let ghost filled = self.region@;
        put_u64(&mut self.region, WRITE_CURSOR_OFFSET, next);
        proof {
            lemma_after_write(before, filled, self.region@, *record);
        }
        Ok(index)
    }

    /// Reads the oldest record in flight, or returns `None`, with nothing
    /// changed, where none is in flight.
    pub fn read(&mut self) -> (record: Option<OrderRecord>)
        requires
            old(self).wf(),
        ensures
            final(self).wf(),
            final(self).instrument() == old(self).instrument(),
            final(self).slots() == old(self).slots(),
            record == read_result(old(self).pending()),
            final(self).pending() == after_read(old(self).pending()),
            record is None ==> final(self).bytes() == old(self).bytes(),
            record is Some ==> read_cursor(final(self).bytes()) == advance(
                read_cursor(old(self).bytes()),
                1,
            ) && write_cursor(final(self).bytes()) == write_cursor(old(self).bytes()),
    {
        let ghost before = self.region@;
        let mask: u64 = (self.slot_count - 1) as u64;
        let read = get_u64(&self.region, READ_CURSOR_OFFSET);
        let write = get_u64(&self.region, WRITE_CURSOR_OFFSET);
        let (index, next) = match plan_read(write, read, mask) {
            Some(plan) => plan,
            None => {
                proof {
                    assert(pending_of(before) =~= Seq::<OrderRecord>::empty());
                }
                return None;
            },
        };
        let offset = offset_of_slot(index);
        let record = read_record(&self.region, offset);
        put_u64(&mut self.region, READ_CURSOR_OFFSET, next);
        proof {
            lemma_after_read(before, self.region@);
        }
        Some(record)
    }

    /// How many records are in flight.
    pub fn depth(&self) -> (n: u64)
        requires
            self.wf(),
        ensures
            n == self.pending().len(),
    {
        let read = get_u64(&self.region, READ_CURSOR_OFFSET);
        let write = get_u64(&self.region, WRITE_CURSOR_OFFSET);
        occupancy(write, read)
    }

    /// How many slots the ring has.
    pub fn capacity(&self) -> (n: usize)
        ensures
            n == self.slots(),
    {
        self.slot_count
    }

    /// The instrument that the channel is for.
    pub fn instrument_id(&self) -> (id: InstrumentId)
        ensures
            id == self.instrument(),
    {
        self.instrument_id
    }

    /// Gives up the queue for its region.
    pub fn into_region(self) -> (region: Vec<u8>)
        ensures
            region@ == self.bytes(),
    {
        self.region
    }
}

/// Whether a region can be attached to: its size is that of a ring's
/// region, its header names the mask that goes with that size, and its
/// cursors are no further apart than it has slots.
pub open spec fn connectable(bytes: Seq<u8>) -> bool {
    let slots = (bytes.len() - HEADER_SIZE) / (SLOT_SIZE as int);
    &&& ring_size(bytes.len() as int)
    &&& capacity_mask(bytes) == slots - 1
    &&& distance(read_cursor(bytes), write_cursor(bytes)) <= slots
}

/// The instant as nanoseconds since the Unix epoch; zero for an instant
/// before the epoch or too far after it to count.
pub fn nanos_since_epoch(instant: &Timestamp) -> (nanos: u64)
    ensures
        nanos == if instant.seconds >= 0 && instant.seconds * 1_000_000_000 + instant.nanos
            <= u64::MAX {
            (instant.seconds * 1_000_000_000 + instant.nanos) as u64
        } else {
            0
        },
{
    if instant.seconds < 0 || instant.seconds > 18_446_744_073 {
        return 0;
    }
    let whole: u64 = (instant.seconds as u64) * 1_000_000_000;
    match whole.checked_add(instant.nanos as u64) {
        Some(nanos) => nanos,
        None => 0,
    }
}

} // verus!
