use diskalloc::buffers::BlockBuffer;

#[test]
fn new_buffer_is_zero_filled() {
    let buffer = BlockBuffer::new(3, 4);
    assert_eq!(buffer.block_count(), 3);
    assert_eq!(buffer.block_size(), 4);
    assert_eq!(buffer.bytes(), &vec![0u8; 12]);
}

#[test]
fn fitting_rounds_up_to_whole_blocks() {
    let buffer = BlockBuffer::from_raw_fitting(vec![1, 2, 3, 4, 5], 4);
    assert_eq!(buffer.block_count(), 2);
    assert_eq!(buffer.block_size(), 4);
    assert_eq!(buffer.bytes(), &vec![1, 2, 3, 4, 5, 0, 0, 0]);
}

#[test]
fn fitting_an_exact_multiple_adds_no_padding() {
    let buffer = BlockBuffer::from_raw_fitting(vec![1, 2, 3, 4], 4);
    assert_eq!(buffer.block_count(), 1);
    assert_eq!(buffer.bytes(), &vec![1, 2, 3, 4]);
}

#[test]
fn fitting_an_empty_buffer_needs_no_blocks() {
    let buffer = BlockBuffer::from_raw_fitting(Vec::new(), 4);
    assert_eq!(buffer.block_count(), 0);
    assert!(buffer.bytes().is_empty());
}

#[test]
fn padding_fills_the_requested_blocks_with_zeroes() {
    let buffer = BlockBuffer::from_raw_padded(vec![1], 2, 3);
    assert_eq!(buffer.block_count(), 2);
    assert_eq!(buffer.block_size(), 3);
    assert_eq!(buffer.bytes(), &vec![1, 0, 0, 0, 0, 0]);
}
