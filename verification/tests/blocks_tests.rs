use diskalloc::blocks::Block;
use diskalloc::blocks::BlockBuffer;

#[test]
fn block_holds_its_id_and_bytes() {
    let block = Block::new(3, &[1, 2, 3]);
    assert_eq!(block.id(), 3);
    assert_eq!(block.data(), &[1, 2, 3]);
}

#[test]
fn block_clone_from_slice_replaces_the_bytes() {
    let mut block = Block::new(0, &[1, 2, 3]);
    block.clone_from_slice(&[7, 8, 9]);
    assert_eq!(block.id(), 0);
    assert_eq!(block.data(), &[7, 8, 9]);
}

#[test]
fn from_data_buffer_cuts_and_pads() {
    let buffer = BlockBuffer::from_data_buffer(vec![1, 2, 3, 4, 5], 4, 2, 1);
    assert_eq!(buffer.block_size(), 4);
    assert_eq!(buffer.data_size(), 5);

    let blocks = buffer.blocks();
    assert_eq!(blocks.len(), 3);
    let expected: [&[u8]; 3] = [&[1, 2, 3, 4], &[5, 0, 0, 0], &[0, 0, 0, 0]];
    for (i, block) in blocks.iter().enumerate() {
        let block = block.as_ref().unwrap();
        assert_eq!(block.id(), i);
        assert_eq!(block.data(), expected[i]);
    }
}

#[test]
fn data_round_trips_through_the_blocks() {
    let original = vec![10, 20, 30, 40, 50];
    let buffer = BlockBuffer::from_data_buffer(original.clone(), 4, 2, 1);
    assert_eq!(buffer.data(), Some(original));
}

#[test]
fn mark_absent_hides_a_block() {
    let mut buffer = BlockBuffer::from_data_buffer(vec![1, 2, 3, 4, 5], 4, 2, 1);
    buffer.mark_absent(1);
    let blocks = buffer.blocks();
    assert!(blocks[0].is_some());
    assert!(blocks[1].is_none());
    assert!(blocks[2].is_some());
    // accessibility was decided when the buffer was built
    assert!(buffer.data().is_some());
    buffer.mark_present(1);
    assert!(buffer.blocks()[1].is_some());
}

#[test]
fn overwrite_block_changes_the_slot_bytes() {
    let mut buffer = BlockBuffer::from_data_buffer(vec![1, 2, 3, 4, 5], 4, 2, 1);
    buffer.overwrite_block(1, &[9, 9]);
    let blocks = buffer.blocks();
    assert_eq!(blocks[1].as_ref().unwrap().data(), &[9, 9, 0, 0]);
    // the payload is reassembled from the slot bytes
    assert_eq!(buffer.data(), Some(vec![1, 2, 3, 4, 9]));
}

#[test]
fn from_blocks_with_all_data_blocks_recovers_the_payload() {
    let survivors = vec![Block::new(0, &[1, 2, 3, 4]), Block::new(1, &[5, 0, 0, 0])];
    let buffer = BlockBuffer::from_blocks(survivors.as_slice(), 4, 2, 1, 5);
    assert_eq!(buffer.data(), Some(vec![1, 2, 3, 4, 5]));
    let blocks = buffer.blocks();
    assert!(blocks[0].is_some());
    assert!(blocks[1].is_some());
    // the parity slot was not given: zero-filled and absent
    assert!(blocks[2].is_none());
}

#[test]
fn from_blocks_with_a_missing_data_block_has_no_payload() {
    let survivors = vec![Block::new(0, &[1, 2, 3, 4]), Block::new(2, &[7, 7, 7, 7])];
    let buffer = BlockBuffer::from_blocks(survivors.as_slice(), 4, 2, 1, 5);
    assert!(buffer.data().is_none());
    let blocks = buffer.blocks();
    assert!(blocks[0].is_some());
    assert!(blocks[1].is_none());
    assert_eq!(blocks[2].as_ref().unwrap().data(), &[7, 7, 7, 7]);
    // restoring the block's bytes does not revisit that decision
    let mut buffer = buffer;
    buffer.overwrite_block(1, &[5, 0, 0, 0]);
    buffer.mark_present(1);
    assert!(buffer.data().is_none());
}
