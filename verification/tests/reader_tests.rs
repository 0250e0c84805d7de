use byte_entropy::reader::ChunkReader;

/// Stream `data` through a reader of the given buffer capacity the way a
/// caller would: refill with the next chunk whenever the buffer is exhausted,
/// and collect every byte handed out.
fn stream_through(data: &[u8], capacity: usize) -> Vec<u8> {
    let mut reader = ChunkReader::new(capacity);
    let mut out: Vec<u8> = Vec::new();
    let mut offset: usize = 0;
    loop {
        if reader.buffer_exhausted() {
            let end = (offset + capacity).min(data.len());
            let chunk: Vec<u8> = data[offset..end].to_vec();
            let read_bytes = chunk.len();
            offset = end;
            if !reader.fill_buffer(&chunk, read_bytes) {
                break;
            }
        }
        if let Some(b) = reader.next() {
            out.push(b);
        }
    }
    out
}

#[test]
fn reproduces_bytes_for_many_capacities() {
    let data: Vec<u8> = (0..57u8).map(|i| i.wrapping_mul(37).wrapping_add(11)).collect();
    let n = data.len();
    for capacity in [1, n - 1, n, n + 1, 7] {
        assert_eq!(stream_through(&data, capacity), data, "capacity {capacity}");
    }
}

#[test]
fn empty_stream_yields_nothing() {
    assert_eq!(stream_through(&[], 1), Vec::<u8>::new());
    assert_eq!(stream_through(&[], 100), Vec::<u8>::new());
}

#[test]
fn fresh_reader_is_exhausted_and_next_is_none() {
    let mut reader = ChunkReader::new(8);
    assert!(reader.buffer_exhausted());
    assert_eq!(reader.next(), None);
}

#[test]
fn fill_buffer_takes_only_the_read_prefix() {
    let mut reader = ChunkReader::new(8);
    let chunk: Vec<u8> = vec![5, 6, 7, 0, 0, 0, 0, 0];
    assert!(reader.fill_buffer(&chunk, 3));
    assert_eq!(reader.next(), Some(5));
    assert_eq!(reader.next(), Some(6));
    assert_eq!(reader.next(), Some(7));
    assert_eq!(reader.next(), None);
    assert!(reader.buffer_exhausted());
}

#[test]
fn drain_hands_out_the_rest_in_order() {
    let mut reader = ChunkReader::new(4);
    let chunk: Vec<u8> = vec![9, 8, 7, 6];
    assert!(reader.fill_buffer(&chunk, 4));
    assert_eq!(reader.next(), Some(9));
    assert_eq!(reader.drain(), vec![8, 7, 6]);
    assert!(reader.buffer_exhausted());
    let zero: Vec<u8> = Vec::new();
    assert!(!reader.fill_buffer(&zero, 0));
}
