use diskalloc::chunk::Chunk;
use diskalloc::chunk::CoalesceError;
use diskalloc::chunk::FreeList;
use diskalloc::chunk::FreeListIterator;
use diskalloc::chunk::FreeNeighbourIterator;
use diskalloc::device::DeviceError;
use diskalloc::device::MemDevice;
use diskalloc::device::StorageDevice;
use diskalloc::layout::ChunkFooter;
use diskalloc::layout::ChunkHeader;

fn device_1k() -> MemDevice {
    MemDevice::zeroed(1024, 8, 512)
}

#[test]
fn dump_then_load_round_trip() {
    let mut device = device_1k();
    let chunk = Chunk::new(8, 100, false, 3, 7);
    chunk.dump_to_device(&mut device).unwrap();
    let loaded = Chunk::load_from_device(&device, 8).unwrap();
    assert_eq!(loaded.offset(), 8);
    assert_eq!(loaded.data_size(), 100);
    assert!(!loaded.allocated());
    assert_eq!(loaded.prev_free(), 3);
    assert_eq!(loaded.next_free(), 7);

    let chunk = Chunk::new(200, 0, true, 0, 0);
    chunk.dump_to_device(&mut device).unwrap();
    let loaded = Chunk::load_from_device(&device, 200).unwrap();
    assert_eq!(loaded.offset(), 200);
    assert_eq!(loaded.data_size(), 0);
    assert!(loaded.allocated());
}

#[test]
fn header_and_footer_byte_layout() {
    let header = ChunkHeader { data_size: 1, allocated: true, prev_free: 2, next_free: 3 };
    let bytes = header.dump();
    assert_eq!(bytes.len(), 25);
    // little-endian u64 fields with the allocation flag byte in between
    assert_eq!(&bytes[0..9], &[1, 0, 0, 0, 0, 0, 0, 0, 1]);
    assert_eq!(bytes[9], 2);
    assert_eq!(bytes[17], 3);
    let back = ChunkHeader::load(bytes.as_slice());
    assert_eq!(back, header);

    let footer = ChunkFooter { data_size: 258, allocated: false };
    let bytes = footer.dump();
    assert_eq!(bytes.len(), 9);
    assert_eq!(&bytes[0..9], &[2, 1, 0, 0, 0, 0, 0, 0, 0]);
    let back = ChunkFooter::load(bytes.as_slice());
    assert_eq!(back, footer);
}

#[test]
fn load_rejects_bad_offsets() {
    let device = device_1k();
    assert!(matches!(
        Chunk::load_from_device(&device, 7),
        Err(DeviceError::InvalidOffset)
    ));
    assert!(matches!(
        Chunk::load_from_device(&device, 1010),
        Err(DeviceError::InvalidOffset)
    ));
    assert!(matches!(
        Chunk::load_from_device(&device, 2000),
        Err(DeviceError::InvalidOffset)
    ));
}

#[test]
fn load_rejects_a_size_that_runs_past_the_device() {
    let mut device = device_1k();
    let chunk = Chunk::new(8, 982, false, 0, 0);
    chunk.dump_to_device(&mut device).unwrap();
    assert!(Chunk::load_from_device(&device, 8).is_ok());
    // a chunk claiming one byte more than the device holds
    let header = ChunkHeader { data_size: 983, allocated: false, prev_free: 0, next_free: 0 };
    device.write_at(8, header.dump().as_slice()).unwrap();
    assert!(matches!(
        Chunk::load_from_device(&device, 8),
        Err(DeviceError::InvalidOffset)
    ));
}

#[test]
fn dump_rejects_a_chunk_that_does_not_fit() {
    let mut device = device_1k();
    assert!(matches!(
        Chunk::new(8, 983, false, 0, 0).dump_to_device(&mut device),
        Err(DeviceError::InvalidOffset)
    ));
    assert!(matches!(
        Chunk::new(7, 10, false, 0, 0).dump_to_device(&mut device),
        Err(DeviceError::InvalidOffset)
    ));
}

#[test]
fn physical_neighbours() {
    let mut device = device_1k();
    // two adjacent chunks: [8..92) and [92..226)
    Chunk::new(8, 50, false, 0, 0).dump_to_device(&mut device).unwrap();
    Chunk::new(92, 100, true, 0, 0).dump_to_device(&mut device).unwrap();

    let first = Chunk::load_from_device(&device, 8).unwrap();
    let second = first.next_physical(&device).unwrap();
    assert_eq!(second.offset(), 92);
    assert_eq!(second.data_size(), 100);
    assert!(second.allocated());

    let back = second.prev_physical(&device).unwrap().unwrap();
    assert_eq!(back.offset(), 8);
    assert_eq!(back.data_size(), 50);

    // the first chunk on the device has no predecessor
    assert!(first.prev_physical(&device).unwrap().is_none());
}

#[test]
fn data_offset_points_after_the_header() {
    let chunk = Chunk::new(8, 50, false, 0, 0);
    assert_eq!(chunk.data_offset(), 33);
}

#[test]
fn unallocated_neighbours_filters_allocated_chunks() {
    let mut device = device_1k();
    // free [8..92), allocated [92..226), free [226..310), and free tail
    Chunk::new(8, 50, false, 0, 0).dump_to_device(&mut device).unwrap();
    Chunk::new(92, 100, true, 0, 0).dump_to_device(&mut device).unwrap();
    Chunk::new(226, 50, false, 0, 0).dump_to_device(&mut device).unwrap();
    Chunk::new(310, 680, true, 0, 0).dump_to_device(&mut device).unwrap();

    let middle = Chunk::load_from_device(&device, 92).unwrap();
    let (prev, next) = middle.unallocated_neighbours(&device).unwrap();
    assert_eq!(prev.unwrap().offset(), 8);
    assert_eq!(next.unwrap().offset(), 226);

    let third = Chunk::load_from_device(&device, 226).unwrap();
    let (prev, next) = third.unallocated_neighbours(&device).unwrap();
    assert!(prev.is_none());
    assert!(next.is_none());

    // a chunk ending exactly at the device end has no successor
    let tail = Chunk::load_from_device(&device, 310).unwrap();
    let (_, next) = tail.unallocated_neighbours(&device).unwrap();
    assert!(next.is_none());
}

#[test]
fn remove_from_freelist_splices_the_neighbours() {
    let mut device = device_1k();
    // three free chunks linked 8 <-> 100 <-> 200
    Chunk::new(8, 50, false, 0, 100).dump_to_device(&mut device).unwrap();
    Chunk::new(100, 50, false, 8, 200).dump_to_device(&mut device).unwrap();
    Chunk::new(200, 50, false, 100, 0).dump_to_device(&mut device).unwrap();

    let mut middle = Chunk::load_from_device(&device, 100).unwrap();
    middle.remove_from_freelist(&mut device).unwrap();
    assert!(middle.allocated());

    let head = Chunk::load_from_device(&device, 8).unwrap();
    let tail = Chunk::load_from_device(&device, 200).unwrap();
    assert_eq!(head.next_free(), 200);
    assert_eq!(tail.prev_free(), 8);
    assert!(Chunk::load_from_device(&device, 100).unwrap().allocated());
}

#[test]
fn coalesce_two_adds_the_reclaimed_overhead() {
    let mut device = device_1k();
    // adjacent free chunks of payloads 64 and 100: [8..106) and [106..240)
    Chunk::new(8, 64, false, 0, 106).dump_to_device(&mut device).unwrap();
    Chunk::new(106, 100, false, 8, 0).dump_to_device(&mut device).unwrap();
    let first = Chunk::load_from_device(&device, 8).unwrap();
    let second = Chunk::load_from_device(&device, 106).unwrap();

    let merged = Chunk::coalesce_two(first, second, &mut device).unwrap();
    assert_eq!(merged.offset(), 8);
    assert_eq!(merged.data_size(), 64 + 34 + 100);
    assert!(!merged.allocated());
    // the merged chunk takes the pair's outward links: the first chunk's
    // link to the removed chunk is rerouted past it
    assert_eq!(merged.prev_free(), 0);
    assert_eq!(merged.next_free(), 0);

    let reloaded = Chunk::load_from_device(&device, 8).unwrap();
    assert_eq!(reloaded.data_size(), 198);
}

#[test]
fn coalesce_two_reroutes_the_outward_neighbour() {
    let mut device = device_1k();
    // free list 8 <-> 106 <-> 300; the first two are physically adjacent
    Chunk::new(8, 64, false, 0, 106).dump_to_device(&mut device).unwrap();
    Chunk::new(106, 100, false, 8, 300).dump_to_device(&mut device).unwrap();
    Chunk::new(300, 50, false, 106, 0).dump_to_device(&mut device).unwrap();
    let first = Chunk::load_from_device(&device, 8).unwrap();
    let second = Chunk::load_from_device(&device, 106).unwrap();

    let merged = Chunk::coalesce_two(first, second, &mut device).unwrap();
    assert_eq!(merged.offset(), 8);
    assert_eq!(merged.next_free(), 300);
    // the outward neighbour's back pointer now points at the merged chunk
    let outward = Chunk::load_from_device(&device, 300).unwrap();
    assert_eq!(outward.prev_free(), 8);
}

#[test]
fn coalesce_two_rejects_allocated_and_non_adjacent() {
    let mut device = device_1k();
    Chunk::new(8, 64, true, 0, 0).dump_to_device(&mut device).unwrap();
    Chunk::new(106, 100, false, 0, 0).dump_to_device(&mut device).unwrap();
    let first = Chunk::load_from_device(&device, 8).unwrap();
    let second = Chunk::load_from_device(&device, 106).unwrap();
    assert!(matches!(
        Chunk::coalesce_two(first, second, &mut device),
        Err(CoalesceError::Allocated)
    ));

    let mut device = device_1k();
    Chunk::new(8, 64, false, 0, 0).dump_to_device(&mut device).unwrap();
    Chunk::new(200, 100, false, 0, 0).dump_to_device(&mut device).unwrap();
    let first = Chunk::load_from_device(&device, 8).unwrap();
    let second = Chunk::load_from_device(&device, 200).unwrap();
    assert!(matches!(
        Chunk::coalesce_two(first, second, &mut device),
        Err(CoalesceError::NotAdjacent)
    ));

    let mut device = device_1k();
    let first = Chunk::new(8, 2000, false, 0, 0);
    let second = Chunk::new(2042, 10, false, 0, 0);
    assert!(matches!(
        Chunk::coalesce_two(first, second, &mut device),
        Err(CoalesceError::Device(DeviceError::InvalidOffset))
    ));
}

#[test]
fn coalesce_three_merges_in_order() {
    let mut device = device_1k();
    // adjacent free chunks: [8..58), [58..108), [108..158)
    Chunk::new(8, 16, false, 0, 0).dump_to_device(&mut device).unwrap();
    Chunk::new(58, 16, false, 0, 0).dump_to_device(&mut device).unwrap();
    Chunk::new(108, 16, false, 0, 0).dump_to_device(&mut device).unwrap();
    let a = Chunk::load_from_device(&device, 8).unwrap();
    let b = Chunk::load_from_device(&device, 58).unwrap();
    let c = Chunk::load_from_device(&device, 108).unwrap();

    let merged = Chunk::coalesce_three(a, b, c, &mut device).unwrap();
    assert_eq!(merged.offset(), 8);
    assert_eq!(merged.data_size(), 16 + 34 + 16 + 34 + 16);
    assert!(!merged.allocated());
}

#[test]
fn coalesce_three_rejects_an_allocated_third_chunk() {
    let mut device = device_1k();
    Chunk::new(8, 16, false, 0, 0).dump_to_device(&mut device).unwrap();
    Chunk::new(58, 16, false, 0, 0).dump_to_device(&mut device).unwrap();
    Chunk::new(108, 16, true, 0, 0).dump_to_device(&mut device).unwrap();
    let a = Chunk::load_from_device(&device, 8).unwrap();
    let b = Chunk::load_from_device(&device, 58).unwrap();
    let c = Chunk::load_from_device(&device, 108).unwrap();
    assert!(matches!(
        Chunk::coalesce_three(a, b, c, &mut device),
        Err(CoalesceError::Allocated)
    ));
}

#[test]
fn freelist_walks_both_ways() {
    let mut device = device_1k();
    Chunk::new(8, 50, false, 0, 100).dump_to_device(&mut device).unwrap();
    Chunk::new(100, 50, false, 8, 200).dump_to_device(&mut device).unwrap();
    Chunk::new(200, 50, false, 100, 0).dump_to_device(&mut device).unwrap();

    let head = Chunk::load_from_device(&device, 8).unwrap();
    let list = head.as_freelist();
    assert_eq!(list.head().offset(), 8);

    let second = list.next(&device).unwrap().unwrap();
    assert_eq!(second.head().offset(), 100);
    let third = second.next(&device).unwrap().unwrap();
    assert_eq!(third.head().offset(), 200);
    assert!(third.next(&device).is_none());

    let back = third.next_back(&device).unwrap().unwrap();
    assert_eq!(back.head().offset(), 100);
    assert!(FreeList::new(head).next_back(&device).is_none());
}

#[test]
fn freelist_iterator_visits_in_reverse_order_backwards() {
    let mut device = device_1k();
    Chunk::new(8, 50, false, 0, 100).dump_to_device(&mut device).unwrap();
    Chunk::new(100, 50, false, 8, 200).dump_to_device(&mut device).unwrap();
    Chunk::new(200, 50, false, 100, 0).dump_to_device(&mut device).unwrap();

    let head = Chunk::load_from_device(&device, 8).unwrap();
    let mut forward_offsets: Vec<u64> = Vec::new();
    let mut it = FreeListIterator::new(head.as_freelist());
    while let Some(step) = it.next(&device) {
        forward_offsets.push(step.unwrap().offset());
    }
    assert_eq!(forward_offsets, vec![8, 100, 200]);

    let tail = Chunk::load_from_device(&device, 200).unwrap();
    let mut backward_offsets: Vec<u64> = Vec::new();
    let mut it = FreeListIterator::new(tail.as_freelist());
    while let Some(step) = it.next_back(&device) {
        backward_offsets.push(step.unwrap().offset());
    }
    let mut reversed = forward_offsets.clone();
    reversed.reverse();
    assert_eq!(backward_offsets, reversed);
}

#[test]
fn freelist_iterator_surfaces_a_decode_failure_once() {
    let mut device = device_1k();
    Chunk::new(8, 50, false, 0, 999_999).dump_to_device(&mut device).unwrap();
    let head = Chunk::load_from_device(&device, 8).unwrap();
    let mut it = FreeListIterator::new(head.as_freelist());
    assert_eq!(it.next(&device).unwrap().unwrap().offset(), 8);
    assert!(it.next(&device).unwrap().is_err());
    assert!(it.next(&device).is_none());
}

#[test]
fn neighbour_iterator_stops_at_allocated_chunks() {
    let mut device = device_1k();
    // free [8..58), free [58..108), allocated [108..158)
    Chunk::new(8, 16, false, 0, 0).dump_to_device(&mut device).unwrap();
    Chunk::new(58, 16, false, 0, 0).dump_to_device(&mut device).unwrap();
    Chunk::new(108, 16, true, 0, 0).dump_to_device(&mut device).unwrap();

    let first = Chunk::load_from_device(&device, 8).unwrap();
    let mut it = FreeNeighbourIterator::new(first);
    assert_eq!(it.next(&device).unwrap().unwrap().offset(), 58);
    assert!(it.next(&device).is_none());

    let last = Chunk::load_from_device(&device, 108).unwrap();
    let mut it = FreeNeighbourIterator::new(last);
    assert_eq!(it.next_back(&device).unwrap().unwrap().offset(), 58);
    assert_eq!(it.next_back(&device).unwrap().unwrap().offset(), 8);
    assert!(it.next_back(&device).is_none());
}
