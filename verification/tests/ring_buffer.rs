use usartscreen::command::{command_body, RingBuffer, BUFFER_SIZE};

#[test]
fn new_buffer_is_empty() {
    let rb = RingBuffer::new();
    assert_eq!(rb.get_length(), 0);
    assert_eq!(rb.get_remain(), BUFFER_SIZE);
    assert_eq!(rb.write_index, 0);
}

#[test]
fn write_appends_and_read_wraps() {
    let mut rb = RingBuffer::new();
    assert_eq!(rb.write(&[1, 2, 3]), 3);
    assert_eq!(rb.get_length(), 3);
    assert_eq!(rb.get_remain(), 253);
    assert_eq!(rb.read(0), 1);
    assert_eq!(rb.read(2), 3);
    assert_eq!(rb.read(256 + 1), 2);
}

#[test]
fn write_refuses_what_does_not_fit() {
    let mut rb = RingBuffer::new();
    let big = [7u8; 257];
    assert_eq!(rb.write(&big), 0);
    assert_eq!(rb.get_length(), 0);
    assert_eq!(rb.write(&[1u8; 200]), 200);
    assert_eq!(rb.write(&[2u8; 57]), 0);
    assert_eq!(rb.get_length(), 200);
}

#[test]
fn write_filling_the_whole_storage_reads_as_empty() {
    let mut rb = RingBuffer::new();
    assert_eq!(rb.write(&[1u8; 100]), 100);
    assert_eq!(rb.write(&[2u8; 156]), 156);
    assert_eq!(rb.get_length(), 0);
    assert_eq!(rb.write_index, 0);
}

#[test]
fn write_goes_round_the_end() {
    let mut rb = RingBuffer::new();
    assert_eq!(rb.write(&[0u8; 250]), 250);
    rb.add_read_index(250);
    assert_eq!(rb.get_length(), 0);
    assert_eq!(rb.write(&[0xAA, 1, 2, 3, 4, 5, 6, 0xBB]), 8);
    assert_eq!(rb.write_index, 2);
    assert_eq!(rb.get_length(), 8);
    let mut cmd = [0u8; 64];
    assert_eq!(rb.get_command(&mut cmd), 8);
    assert_eq!(&cmd[..8], &[0xAA, 1, 2, 3, 4, 5, 6, 0xBB]);
    assert_eq!(rb.get_length(), 0);
}

#[test]
fn get_command_skips_junk_before_a_frame() {
    let mut rb = RingBuffer::new();
    rb.write(&[1, 2, 0xAA, 5, 6, 0xBB, 9]);
    let mut cmd = [0u8; 16];
    assert_eq!(rb.get_command(&mut cmd), 4);
    assert_eq!(&cmd[..4], &[0xAA, 5, 6, 0xBB]);
    assert_eq!(&cmd[4..], &[0u8; 12]);
    assert_eq!(rb.get_length(), 1);
    assert_eq!(rb.get_command(&mut cmd), 0);
    assert_eq!(rb.get_length(), 1);
}

#[test]
fn get_command_waits_for_an_incomplete_frame() {
    let mut rb = RingBuffer::new();
    rb.write(&[0xAA, 1, 2]);
    let mut cmd = [0u8; 16];
    assert_eq!(rb.get_command(&mut cmd), 0);
    assert_eq!(rb.get_length(), 3);
    rb.write(&[0xBB]);
    assert_eq!(rb.get_command(&mut cmd), 4);
    assert_eq!(&cmd[..4], &[0xAA, 1, 2, 0xBB]);
}

#[test]
fn get_command_drops_a_header_without_trailer_in_reach() {
    let mut rb = RingBuffer::new();
    let mut data = vec![0xAAu8];
    data.extend_from_slice(&[3u8; 14]);
    data.extend_from_slice(&[0xAA, 7, 0xBB]);
    rb.write(&data);
    let mut cmd = [0u8; 16];
    assert_eq!(rb.get_command(&mut cmd), 3);
    assert_eq!(&cmd[..3], &[0xAA, 7, 0xBB]);
    assert_eq!(rb.get_length(), 0);
}

#[test]
fn get_command_takes_longest_frame() {
    let mut rb = RingBuffer::new();
    let mut data = vec![0xAAu8];
    data.extend_from_slice(b"012345+543210");
    data.push(0xBB);
    rb.write(&data);
    let mut cmd = [0u8; 15];
    assert_eq!(rb.get_command(&mut cmd), 15);
    assert_eq!(&cmd[..], &data[..]);
}

#[test]
fn get_command_on_too_little_data_discards_nothing() {
    let mut rb = RingBuffer::new();
    rb.write(&[0xAA]);
    let mut cmd = [0u8; 4];
    assert_eq!(rb.get_command(&mut cmd), 0);
    assert_eq!(rb.get_length(), 1);
}

#[test]
fn frames_come_out_in_order() {
    let mut rb = RingBuffer::new();
    rb.write(&[0xAA, 1, 0xBB, 0xAA, 2, 3, 0xBB]);
    let mut cmd = [0u8; 16];
    assert_eq!(rb.get_command(&mut cmd), 3);
    assert_eq!(command_body(&cmd, 3), &[1]);
    assert_eq!(rb.get_command(&mut cmd), 4);
    assert_eq!(command_body(&cmd, 4), &[2, 3]);
    assert_eq!(rb.get_command(&mut cmd), 0);
}

#[test]
fn update_write_index_from_dma_count() {
    let mut rb = RingBuffer::new();
    rb.update_write_index(256);
    assert_eq!(rb.write_index, 0);
    rb.update_write_index(250);
    assert_eq!(rb.write_index, 6);
    assert_eq!(rb.get_length(), 6);
    rb.update_write_index(0);
    assert_eq!(rb.write_index, 0);
}

#[test]
fn add_read_index_goes_round() {
    let mut rb = RingBuffer::new();
    rb.add_read_index(300);
    assert_eq!(rb.get_length(), (256 - 44) % 256);
    assert_eq!(rb.get_remain(), 44);
}
