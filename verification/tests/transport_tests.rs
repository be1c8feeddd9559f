use kobara_ob::transport::inq::{
    nanos_since_epoch, occupancy, offset_of_slot, plan_read, plan_write, region_size,
    round_up_capacity, slots_in_region,
};
use kobara_ob::transport::layout::{
    get_u32, get_u64, put_u32, put_u64, read_record, write_record, HEADER_SIZE, MAX_SLOTS,
    READ_CURSOR_OFFSET, SLOT_SIZE, WRITE_CURSOR_OFFSET,
};
use kobara_ob::{
    Decimal, InstrumentQueue, Order, OrderRecord, OrderStatus, OrderType, Side, Timestamp,
    TransportError,
};

fn record(id: u64) -> OrderRecord {
    OrderRecord {
        id,
        instrument_id: 7,
        price: 100_00000000 + id,
        quantity: 5_00000000 + id,
        side: (id % 2) as u8,
        order_type: 0,
        timestamp: 1_700_000_000_000_000_000 + id,
    }
}

#[test]
fn capacity_is_rounded_up_to_a_power_of_two() {
    assert_eq!(round_up_capacity(0), Some(1));
    assert_eq!(round_up_capacity(1), Some(1));
    assert_eq!(round_up_capacity(2), Some(2));
    assert_eq!(round_up_capacity(3), Some(4));
    assert_eq!(round_up_capacity(5), Some(8));
    assert_eq!(round_up_capacity(1000), Some(1024));
    assert_eq!(round_up_capacity(1024), Some(1024));
    assert_eq!(round_up_capacity(MAX_SLOTS), Some(MAX_SLOTS));
    assert_eq!(round_up_capacity(MAX_SLOTS + 1), None);
}

#[test]
fn region_size_is_header_and_slots() {
    assert_eq!(region_size(0), 256);
    assert_eq!(region_size(1), 304);
    assert_eq!(region_size(8), 256 + 8 * 48);
    assert_eq!(offset_of_slot(0), 256);
    assert_eq!(offset_of_slot(3), 256 + 3 * 48);
}

#[test]
fn slot_count_comes_from_the_size() {
    assert_eq!(slots_in_region(256 + 4 * 48), Ok(4));
    assert_eq!(slots_in_region(256 + 48), Ok(1));
    assert_eq!(slots_in_region(256 + 4 * 48 + 47), Err(TransportError::ChannelSizeMismatch));
    assert_eq!(slots_in_region(256 + 4 * 48 - 1), Err(TransportError::ChannelSizeMismatch));
    assert_eq!(slots_in_region(255), Err(TransportError::ChannelSizeMismatch));
    assert_eq!(slots_in_region(256), Err(TransportError::ChannelSizeMismatch));
    assert_eq!(slots_in_region(256 + 47), Err(TransportError::ChannelSizeMismatch));
    assert_eq!(slots_in_region(256 + 3 * 48), Err(TransportError::ChannelSizeMismatch));
    assert_eq!(slots_in_region(0), Err(TransportError::ChannelSizeMismatch));
}

#[test]
fn plans_follow_the_cursors() {
    assert_eq!(plan_write(0, 0, 3), Ok((0, 1)));
    assert_eq!(plan_write(5, 2, 3), Ok((1, 6)));
    assert_eq!(plan_write(6, 2, 3), Err(TransportError::QueueFull));
    assert_eq!(plan_write(u64::MAX, u64::MAX - 1, 3), Ok((3, 0)));
    assert_eq!(plan_write(1, u64::MAX - 2, 3), Err(TransportError::QueueFull));
    assert_eq!(plan_read(0, 0, 3), None);
    assert_eq!(plan_read(6, 5, 3), Some((1, 6)));
    assert_eq!(plan_read(0, u64::MAX, 3), Some((3, 0)));
    assert_eq!(occupancy(6, 2), 4);
    assert_eq!(occupancy(1, u64::MAX), 2);
}

#[test]
fn numbers_are_stored_little_endian() {
    let mut region = vec![0u8; 16];
    put_u64(&mut region, 4, 0x0102_0304_0506_0708);
    assert_eq!(&region[4..12], &[8, 7, 6, 5, 4, 3, 2, 1]);
    assert_eq!(region[3], 0);
    assert_eq!(region[12], 0);
    assert_eq!(get_u64(&region, 4), 0x0102_0304_0506_0708);
    put_u32(&mut region, 0, 0xA1B2_C3D4);
    assert_eq!(&region[0..4], &[0xD4, 0xC3, 0xB2, 0xA1]);
    assert_eq!(get_u32(&region, 0), 0xA1B2_C3D4);
    assert_eq!(get_u64(&region, 4), 0x0102_0304_0506_0708);
}

#[test]
fn record_round_trips_through_a_slot() {
    let mut region = vec![0xEEu8; 256 + 2 * 48];
    let first = record(1);
    let second = record(2);
    write_record(&mut region, 256, &first);
    write_record(&mut region, 256 + 48, &second);
    assert_eq!(read_record(&region, 256), first);
    assert_eq!(read_record(&region, 256 + 48), second);
    assert!(region[..256].iter().all(|b| *b == 0xEE));
    assert_eq!(&region[256..264], &1u64.to_le_bytes());
    assert_eq!(&region[264..268], &7u32.to_le_bytes());
    assert_eq!(&region[272..280], &first.price.to_le_bytes());
    assert_eq!(&region[280..288], &first.quantity.to_le_bytes());
    assert_eq!(region[288], 1);
    assert_eq!(region[289], 0);
    assert_eq!(&region[296..304], &first.timestamp.to_le_bytes());
}

#[test]
fn new_queue_is_empty_with_rounded_capacity() {
    let queue = InstrumentQueue::new(7, 5).unwrap();
    assert_eq!(queue.capacity(), 8);
    assert_eq!(queue.depth(), 0);
    assert_eq!(queue.instrument_id(), 7);
    let region = queue.into_region();
    assert_eq!(region.len(), HEADER_SIZE + 8 * SLOT_SIZE);
    assert_eq!(get_u64(&region, 128), 7);
    assert!(get_u64(&region, 192) > 0);
}

#[test]
fn create_refuses_too_many_slots() {
    assert_eq!(
        InstrumentQueue::create(1, MAX_SLOTS + 1, 0).err(),
        Some(TransportError::CapacityTooLarge)
    );
    assert_eq!(
        InstrumentQueue::new(1, usize::MAX).err(),
        Some(TransportError::CapacityTooLarge)
    );
}

#[test]
fn writes_are_read_back_in_order() {
    let mut queue = InstrumentQueue::create(7, 8, 42).unwrap();
    for id in 1..=7 {
        assert_eq!(queue.write(&record(id)), Ok(id - 1));
    }
    assert_eq!(queue.depth(), 7);
    for id in 1..=7 {
        assert_eq!(queue.read(), Some(record(id)));
    }
    assert_eq!(queue.depth(), 0);
    assert_eq!(queue.read(), None);
}

#[test]
fn write_to_a_full_queue_fails() {
    let mut queue = InstrumentQueue::create(7, 4, 0).unwrap();
    for id in 1..=4 {
        assert!(queue.write(&record(id)).is_ok());
    }
    assert_eq!(queue.depth(), 4);
    assert_eq!(queue.write(&record(5)), Err(TransportError::QueueFull));
    assert_eq!(queue.depth(), 4);
    assert_eq!(queue.read(), Some(record(1)));
    assert_eq!(queue.write(&record(5)), Ok(0));
    assert_eq!(queue.write(&record(6)), Err(TransportError::QueueFull));
    for id in 2..=5 {
        assert_eq!(queue.read(), Some(record(id)));
    }
    assert_eq!(queue.read(), None);
}

#[test]
fn read_from_an_empty_queue_returns_nothing() {
    let mut queue = InstrumentQueue::create(7, 4, 0).unwrap();
    assert_eq!(queue.read(), None);
    assert_eq!(queue.read(), None);
    assert_eq!(queue.depth(), 0);
}

#[test]
fn write_for_another_instrument_fails() {
    let mut queue = InstrumentQueue::create(8, 4, 0).unwrap();
    assert_eq!(queue.write(&record(1)), Err(TransportError::InstrumentMismatch));
    assert_eq!(queue.depth(), 0);
}

#[test]
fn records_survive_many_trips_round_the_ring() {
    let mut queue = InstrumentQueue::create(7, 4, 0).unwrap();
    let mut next_write = 1u64;
    let mut next_read = 1u64;
    for round in 0..50u64 {
        let batch = 1 + round % 4;
        for _ in 0..batch {
            assert!(queue.write(&record(next_write)).is_ok());
            next_write += 1;
        }
        assert_eq!(queue.depth(), batch);
        for _ in 0..batch {
            assert_eq!(queue.read(), Some(record(next_read)));
            next_read += 1;
        }
        assert_eq!(queue.read(), None);
    }
    assert_eq!(next_read, next_write);
}

#[test]
fn full_cycles_keep_every_record() {
    let mut queue = InstrumentQueue::create(7, 8, 0).unwrap();
    for cycle in 0..5u64 {
        for k in 0..8 {
            assert_eq!(queue.write(&record(cycle * 8 + k)), Ok(k));
        }
        assert_eq!(queue.write(&record(999)), Err(TransportError::QueueFull));
        for k in 0..8 {
            assert_eq!(queue.read(), Some(record(cycle * 8 + k)));
        }
    }
}

#[test]
fn cursors_wrap_at_the_end_of_their_range() {
    let mut region = InstrumentQueue::create(7, 4, 0).unwrap().into_region();
    put_u64(&mut region, WRITE_CURSOR_OFFSET, u64::MAX - 1);
    put_u64(&mut region, READ_CURSOR_OFFSET, u64::MAX - 1);
    let mut queue = InstrumentQueue::connect(7, region).unwrap();
    assert_eq!(queue.depth(), 0);
    assert_eq!(queue.write(&record(1)), Ok(2));
    assert_eq!(queue.write(&record(2)), Ok(3));
    assert_eq!(queue.write(&record(3)), Ok(0));
    assert_eq!(queue.write(&record(4)), Ok(1));
    assert_eq!(queue.write(&record(5)), Err(TransportError::QueueFull));
    assert_eq!(queue.depth(), 4);
    for id in 1..=4 {
        assert_eq!(queue.read(), Some(record(id)));
    }
    assert_eq!(queue.read(), None);
    let region = queue.into_region();
    assert_eq!(get_u64(&region, WRITE_CURSOR_OFFSET), 2);
    assert_eq!(get_u64(&region, READ_CURSOR_OFFSET), 2);
}

#[test]
fn connect_takes_over_what_is_in_flight() {
    let mut writer = InstrumentQueue::create(7, 4, 0).unwrap();
    writer.write(&record(1)).unwrap();
    writer.write(&record(2)).unwrap();
    let region = writer.into_region();
    let mut reader = InstrumentQueue::connect(7, region).unwrap();
    assert_eq!(reader.capacity(), 4);
    assert_eq!(reader.depth(), 2);
    assert_eq!(reader.read(), Some(record(1)));
    assert_eq!(reader.read(), Some(record(2)));
    assert_eq!(reader.read(), None);
}

#[test]
fn connect_refuses_what_is_no_ring() {
    assert_eq!(
        InstrumentQueue::connect(7, vec![0u8; 100]).err(),
        Some(TransportError::ChannelSizeMismatch)
    );
    assert_eq!(
        InstrumentQueue::connect(7, vec![0u8; 256]).err(),
        Some(TransportError::ChannelSizeMismatch)
    );
    assert_eq!(
        InstrumentQueue::connect(7, vec![0u8; 256 + 3 * 48]).err(),
        Some(TransportError::ChannelSizeMismatch)
    );
    assert_eq!(
        InstrumentQueue::connect(7, vec![0u8; 256 + 4 * 48]).err(),
        Some(TransportError::ChannelSizeMismatch)
    );
    let mut slack = InstrumentQueue::create(7, 4, 0).unwrap().into_region();
    slack.push(0);
    assert_eq!(
        InstrumentQueue::connect(7, slack).err(),
        Some(TransportError::ChannelSizeMismatch)
    );
    let mut far = InstrumentQueue::create(7, 4, 0).unwrap().into_region();
    put_u64(&mut far, WRITE_CURSOR_OFFSET, 5);
    assert_eq!(
        InstrumentQueue::connect(7, far).err(),
        Some(TransportError::ChannelSizeMismatch)
    );
    let good = InstrumentQueue::create(7, 4, 0).unwrap().into_region();
    assert!(InstrumentQueue::connect(7, good).is_ok());
}

#[test]
fn nanos_since_epoch_counts_nanoseconds() {
    assert_eq!(nanos_since_epoch(&Timestamp { seconds: 0, nanos: 0 }), 0);
    assert_eq!(nanos_since_epoch(&Timestamp { seconds: 2, nanos: 5 }), 2_000_000_005);
    assert_eq!(nanos_since_epoch(&Timestamp { seconds: -1, nanos: 5 }), 0);
    assert_eq!(nanos_since_epoch(&Timestamp { seconds: i64::MAX, nanos: 0 }), 0);
    assert_eq!(
        nanos_since_epoch(&Timestamp { seconds: 18_446_744_073, nanos: 709_551_615 }),
        u64::MAX
    );
    assert_eq!(
        nanos_since_epoch(&Timestamp { seconds: 18_446_744_073, nanos: 709_551_616 }),
        0
    );
}

#[test]
fn order_goes_into_a_record_and_back() {
    let at = Timestamp { seconds: 1_700_000_000, nanos: 123_456_789 };
    let order = Order::with_timestamp(
        11,
        Decimal::try_new(10050, 2).unwrap(),
        Decimal::try_new(25, 1).unwrap(),
        Side::Ask,
        OrderType::Limit,
        at,
    );
    let carried = OrderRecord::from_order(&order, 3).unwrap();
    assert_eq!(carried.id, 11);
    assert_eq!(carried.instrument_id, 3);
    assert_eq!(carried.price, 100_50000000);
    assert_eq!(carried.quantity, 2_50000000);
    assert_eq!(carried.side, 1);
    assert_eq!(carried.order_type, 0);
    assert_eq!(carried.timestamp, 1_700_000_000_123_456_789);
    let back = carried.to_order().unwrap();
    assert_eq!(back, order);
    assert_eq!(back.status, OrderStatus::Pending);
    assert_eq!(back.remaining_quantity, order.quantity);
}

#[test]
fn order_that_cannot_be_carried_gives_no_record() {
    let at = Timestamp { seconds: 1, nanos: 0 };
    let negative_price = Order::with_timestamp(
        1,
        Decimal::try_new(-1, 0).unwrap(),
        Decimal::try_new(1, 0).unwrap(),
        Side::Bid,
        OrderType::Limit,
        at,
    );
    assert_eq!(OrderRecord::from_order(&negative_price, 1), None);
    let negative_quantity = Order::with_timestamp(
        1,
        Decimal::try_new(1, 0).unwrap(),
        Decimal::try_new(-1, 0).unwrap(),
        Side::Bid,
        OrderType::Limit,
        at,
    );
    assert_eq!(OrderRecord::from_order(&negative_quantity, 1), None);
    let before_epoch = Order::with_timestamp(
        1,
        Decimal::try_new(1, 0).unwrap(),
        Decimal::try_new(1, 0).unwrap(),
        Side::Bid,
        OrderType::Limit,
        Timestamp { seconds: -1, nanos: 0 },
    );
    assert_eq!(OrderRecord::from_order(&before_epoch, 1), None);
}

#[test]
fn record_with_unknown_bytes_gives_no_order() {
    let mut bad_side = record(1);
    bad_side.side = 2;
    assert_eq!(bad_side.to_order(), None);
    let mut bad_type = record(1);
    bad_type.order_type = 9;
    assert_eq!(bad_type.to_order(), None);
    let mut market = record(2);
    market.order_type = 1;
    assert_eq!(market.to_order().unwrap().order_type, OrderType::Market);
    assert_eq!(market.to_order().unwrap().side, Side::Bid);
}
