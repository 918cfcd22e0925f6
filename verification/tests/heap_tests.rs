use diskalloc::chunk::Chunk;
use diskalloc::device::DeviceError;
use diskalloc::device::MemDevice;
use diskalloc::device::StorageDevice;
use diskalloc::heap::Heap;
use diskalloc::heap::HeapError;

/// A fresh heap over a zeroed device holding one free chunk that spans the
/// whole accessible range.
fn setup_heap(size: u64, lower: u64) -> Heap<MemDevice> {
    let mut device = MemDevice::zeroed(size, lower, 512);
    let initial = Chunk::new(lower, size - lower - 34, false, 0, 0);
    initial.dump_to_device(&mut device).unwrap();
    Heap::new(device, lower)
}

fn snapshot(device: &MemDevice) -> Vec<u8> {
    let mut buf = vec![0u8; device.size() as usize - 8];
    device.read_at(8, &mut buf).unwrap();
    buf
}

fn load(heap: &Heap<MemDevice>, offset: u64) -> Chunk {
    Chunk::load_from_device(heap.device(), offset).unwrap()
}

#[test]
fn concrete_scenario_allocate_then_free() {
    // a 1024-byte device begins as a single free chunk at offset 8
    let mut heap = setup_heap(1024, 8);
    assert_eq!(load(&heap, 8).data_size(), 982);

    let data_offset = heap.allocate(64).unwrap();
    assert_eq!(data_offset, 33);

    let placed = load(&heap, 8);
    assert!(placed.allocated());
    assert_eq!(placed.data_size(), 64);

    let residual = load(&heap, 106);
    assert!(!residual.allocated());
    assert_eq!(residual.data_size(), 884);
    assert_eq!(heap.root(), 106);

    heap.free(data_offset).unwrap();
    let merged = load(&heap, 8);
    assert!(!merged.allocated());
    assert_eq!(merged.data_size(), 982);
    assert_eq!(merged.prev_free(), 0);
    assert_eq!(merged.next_free(), 0);
    assert_eq!(heap.root(), 8);
}

#[test]
fn allocate_free_inverse_across_sizes() {
    // for every size up to the no-split bound, allocate then free restores
    // the single free chunk exactly
    for k in [1u64, 2, 33, 64, 500, 947, 948, 949, 950, 981, 982] {
        let mut heap = setup_heap(1024, 8);
        let data_offset = heap.allocate(k).unwrap();
        assert_eq!(data_offset, 33);
        heap.free(data_offset).unwrap();
        // one free chunk spanning the original range is restored; bytes in
        // the payload area may keep stale metadata of the intermediate split
        let merged = load(&heap, 8);
        assert!(!merged.allocated());
        assert_eq!(merged.data_size(), 982);
        assert_eq!(merged.prev_free(), 0);
        assert_eq!(merged.next_free(), 0);
        assert_eq!(heap.root(), 8);
    }
}

#[test]
fn split_threshold() {
    // remainder of exactly one overhead still hosts a residual chunk
    let mut heap = setup_heap(1024, 8);
    heap.allocate(948).unwrap();
    assert_eq!(load(&heap, 8).data_size(), 948);
    let residual = load(&heap, 990);
    assert!(!residual.allocated());
    assert_eq!(residual.data_size(), 0);
    assert_eq!(heap.root(), 990);

    // one byte more and the remainder cannot host a chunk: the whole region
    // is allocated and the excess becomes internal padding
    let mut heap = setup_heap(1024, 8);
    heap.allocate(949).unwrap();
    let placed = load(&heap, 8);
    assert!(placed.allocated());
    assert_eq!(placed.data_size(), 982);
    assert_eq!(heap.root(), 0);
}

#[test]
fn exact_fit_empties_the_list() {
    let mut heap = setup_heap(1024, 8);
    let data_offset = heap.allocate(982).unwrap();
    assert!(load(&heap, 8).allocated());
    assert_eq!(heap.root(), 0);
    assert!(matches!(heap.allocate(1), Err(HeapError::NotEnoughSpace)));
    heap.free(data_offset).unwrap();
    assert_eq!(load(&heap, 8).data_size(), 982);
    assert_eq!(heap.root(), 8);
}

#[test]
fn exhaustion_leaves_topology_unchanged() {
    let mut heap = setup_heap(1024, 8);
    let before = snapshot(heap.device());
    let root_before = heap.root();
    assert!(matches!(heap.allocate(983), Err(HeapError::NotEnoughSpace)));
    assert_eq!(snapshot(heap.device()), before);
    assert_eq!(heap.root(), root_before);
}

#[test]
fn double_free_is_rejected() {
    let mut heap = setup_heap(1024, 8);
    let data_offset = heap.allocate(64).unwrap();
    heap.free(data_offset).unwrap();
    let after_first = snapshot(heap.device());
    let root_after_first = heap.root();
    assert!(matches!(heap.free(data_offset), Err(HeapError::DoubleFree)));
    assert_eq!(snapshot(heap.device()), after_first);
    assert_eq!(heap.root(), root_after_first);
}

#[test]
fn two_allocations_then_frees_coalesce_back() {
    let mut heap = setup_heap(1024, 8);
    let first = heap.allocate(64).unwrap();
    let second = heap.allocate(64).unwrap();
    assert_eq!(first, 33);
    assert_eq!(second, 131);
    assert_eq!(load(&heap, 204).data_size(), 786);

    // freeing the first cannot coalesce: its successor is allocated
    heap.free(first).unwrap();
    let freed = load(&heap, 8);
    assert!(!freed.allocated());
    assert_eq!(freed.data_size(), 64);
    assert_eq!(heap.root(), 8);
    // push-front linkage: the freed chunk heads the list and the former
    // head's back pointer was rewritten to it
    assert_eq!(freed.prev_free(), 0);
    assert_eq!(freed.next_free(), 204);
    assert_eq!(load(&heap, 204).prev_free(), 8);

    // freeing the second merges with both neighbours into one chunk
    heap.free(second).unwrap();
    let merged = load(&heap, 8);
    assert!(!merged.allocated());
    assert_eq!(merged.data_size(), 982);
    assert_eq!(merged.next_free(), 0);
    assert_eq!(heap.root(), 8);
}

#[test]
fn free_list_order_is_first_fit() {
    // after freeing two separated chunks the list front is the last freed;
    // a small request is served from it even though an earlier chunk fits
    let mut heap = setup_heap(1024, 8);
    let a = heap.allocate(100).unwrap();
    let b = heap.allocate(100).unwrap();
    let _c = heap.allocate(100).unwrap();
    heap.free(a).unwrap();
    heap.free(b).unwrap(); // b coalesces with its free neighbour a
    let root = heap.root();
    assert_eq!(root, 8);
    let front = load(&heap, root);
    assert!(!front.allocated());
    let got = heap.allocate(10).unwrap();
    assert_eq!(got, root + 25);
}

#[test]
fn allocate_on_empty_list_reports_exhaustion() {
    let device = MemDevice::zeroed(256, 8, 512);
    let mut heap = Heap::new(device, 0);
    assert!(matches!(heap.allocate(1), Err(HeapError::NotEnoughSpace)));
}

#[test]
fn free_of_impossible_offset_is_a_device_error() {
    let mut heap = setup_heap(1024, 8);
    assert!(matches!(
        heap.free(7),
        Err(HeapError::DeviceError(DeviceError::InvalidOffset))
    ));
    assert!(matches!(
        heap.free(2000),
        Err(HeapError::DeviceError(DeviceError::InvalidOffset))
    ));
}

#[test]
fn allocated_chunk_on_the_list_is_corruption() {
    let mut device = MemDevice::zeroed(256, 8, 512);
    let rogue = Chunk::new(8, 100, true, 0, 0);
    rogue.dump_to_device(&mut device).unwrap();
    let mut heap = Heap::new(device, 8);
    assert!(matches!(heap.allocate(10), Err(HeapError::Corrupt)));
}

#[test]
fn undecodable_list_pointer_is_corruption() {
    let mut device = MemDevice::zeroed(1024, 8, 512);
    let head = Chunk::new(8, 100, false, 0, 999_999);
    head.dump_to_device(&mut device).unwrap();
    let mut heap = Heap::new(device, 8);
    // the only decodable chunk is too small, and its successor pointer
    // points outside the device
    assert!(matches!(heap.allocate(500), Err(HeapError::Corrupt)));
}

#[test]
fn lying_boundary_tag_is_corruption() {
    let mut device = MemDevice::zeroed(1024, 8, 512);
    // a free chunk at 8 and an allocated one right after it at 92
    Chunk::new(8, 50, false, 0, 0).dump_to_device(&mut device).unwrap();
    Chunk::new(92, 100, true, 0, 0).dump_to_device(&mut device).unwrap();
    // overwrite the free chunk's footer so it claims a different size
    let lying = diskalloc::layout::ChunkFooter { data_size: 10, allocated: false }.dump();
    device.write_at(83, lying.as_slice()).unwrap();
    let mut heap = Heap::new(device, 8);
    assert!(matches!(heap.free(117), Err(HeapError::Corrupt)));
}
