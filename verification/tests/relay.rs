use macchinine::relay::{RemoteReader, RemoteWriter, CHUNK_SIZE};

fn feed_all(reader: &mut RemoteReader<()>, datagrams: &[Vec<u8>]) -> Vec<Option<(usize, Vec<u8>)>> {
    datagrams.iter().map(|d| reader.accept_datagram(d)).collect()
}

#[test]
fn small_message_is_one_datagram_with_exact_bytes() {
    let mut writer = RemoteWriter::new(());
    let datagrams = writer.frame_message(&[7, 8]);
    // message number 1, one chunk, index 0, two data bytes
    assert_eq!(datagrams, vec![vec![1, 1, 0, 2, 7, 8]]);
}

#[test]
fn message_numbers_increase() {
    let mut writer = RemoteWriter::new(());
    let first = writer.frame_message(&[1]);
    let second = writer.frame_message(&[2]);
    assert_eq!(first[0][0], 1);
    assert_eq!(second[0][0], 2);
}

#[test]
fn empty_message_gives_no_datagram() {
    let mut writer = RemoteWriter::new(());
    assert!(writer.frame_message(&[]).is_empty());
    let next = writer.frame_message(&[9]);
    assert_eq!(next[0][0], 2);
}

#[test]
fn large_message_is_cut_and_put_back_together() {
    let data: Vec<u8> = (0..130_000u32).map(|i| (i % 251) as u8).collect();
    let mut writer = RemoteWriter::new(());
    let datagrams = writer.frame_message(&data);
    assert_eq!(datagrams.len(), 3);
    let mut reader = RemoteReader::new(());
    let outs = feed_all(&mut reader, &datagrams);
    assert!(outs[0].is_none());
    assert!(outs[1].is_none());
    assert_eq!(outs[2], Some((1, data)));
    assert_eq!(reader.pending_count(), 0);
}

#[test]
fn chunks_arriving_out_of_order_still_assemble() {
    let data: Vec<u8> = (0..(2 * CHUNK_SIZE + 5)).map(|i| (i % 13) as u8).collect();
    let mut writer = RemoteWriter::new(());
    let mut datagrams = writer.frame_message(&data);
    datagrams.reverse();
    let mut reader = RemoteReader::new(());
    let outs = feed_all(&mut reader, &datagrams);
    assert!(outs[0].is_none());
    assert!(outs[1].is_none());
    assert_eq!(outs[2], Some((1, data)));
}

#[test]
fn exact_multiple_of_chunk_size() {
    let data = vec![5u8; 2 * CHUNK_SIZE];
    let mut writer = RemoteWriter::new(());
    let datagrams = writer.frame_message(&data);
    assert_eq!(datagrams.len(), 2);
    let mut reader = RemoteReader::new(());
    let outs = feed_all(&mut reader, &datagrams);
    assert_eq!(outs[1], Some((1, data)));
}

#[test]
fn garbage_is_ignored() {
    let mut reader: RemoteReader<()> = RemoteReader::new(());
    assert_eq!(reader.accept_datagram(&[]), None);
    assert_eq!(reader.accept_datagram(&[1, 2]), None);
    assert_eq!(reader.pending_count(), 0);
}

#[test]
fn huge_length_prefix_is_refused() {
    // id 1, count 2, index 0, then a length of 2^56 bytes
    let bytes = [1u8, 2, 0, 253, 0, 0, 0, 0, 0, 0, 0, 1, 9, 9];
    let mut reader: RemoteReader<()> = RemoteReader::new(());
    assert_eq!(reader.accept_datagram(&bytes), None);
    assert_eq!(reader.pending_count(), 0);
}

#[test]
fn partial_message_waits() {
    let mut reader: RemoteReader<()> = RemoteReader::new(());
    // id 4, two chunks announced, only index 1 arrives
    assert_eq!(reader.accept_chunk(4, 2, 1, vec![3]), None);
    assert_eq!(reader.pending_count(), 1);
    // a second copy of the same chunk replaces the first
    assert_eq!(reader.accept_chunk(4, 2, 1, vec![4]), None);
    assert_eq!(reader.accept_chunk(4, 2, 0, vec![1, 2]), Some((4, vec![1, 2, 4])));
    assert_eq!(reader.pending_count(), 0);
}

#[test]
fn missing_index_contributes_nothing() {
    let mut reader: RemoteReader<()> = RemoteReader::new(());
    // two chunks announced, indices 0 and 5 arrive: the count is met, index 1 is missing
    assert_eq!(reader.accept_chunk(1, 2, 5, vec![9]), None);
    assert_eq!(reader.accept_chunk(1, 2, 0, vec![1]), Some((1, vec![1])));
}

#[test]
fn delivered_marks_latest() {
    let mut reader: RemoteReader<()> = RemoteReader::new(());
    assert_eq!(reader.latest_read(), 0);
    reader.mark_delivered(7);
    assert_eq!(reader.latest_read(), 7);
}

#[test]
fn prune_drops_stale_messages_only_when_many() {
    let mut reader: RemoteReader<()> = RemoteReader::new(());
    for id in 1..=10usize {
        reader.accept_chunk(id, 2, 0, vec![id as u8]);
    }
    reader.mark_delivered(5);
    reader.prune();
    assert_eq!(reader.pending_count(), 10);
    reader.accept_chunk(11, 2, 0, vec![11]);
    reader.prune();
    assert_eq!(reader.pending_count(), 6);
    // the kept ones can still complete
    assert_eq!(reader.accept_chunk(6, 2, 1, vec![60]), Some((6, vec![6, 60])));
    // a dropped one starts over
    assert_eq!(reader.accept_chunk(3, 2, 1, vec![30]), None);
}
