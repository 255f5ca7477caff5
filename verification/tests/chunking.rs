use dicom_viewer_core::chunk::ChunkedStreamWriter;

fn collect(chunks: Vec<Vec<u8>>) -> Vec<u8> {
    let mut all = Vec::new();
    for c in &chunks {
        all.extend_from_slice(c);
    }
    all
}

#[test]
fn scenario_writes_ab_cde_f_with_chunk_size_4() {
    let mut w = ChunkedStreamWriter::new(4);
    w.write(b"AB");
    w.write(b"CDE");
    w.write(b"F");
    let chunks = w.finalize();
    assert_eq!(chunks.len(), 2);
    assert_eq!(chunks[0], b"ABCD".to_vec());
    assert_eq!(chunks[1], b"EF".to_vec());
}

#[test]
fn empty_input_yields_no_chunks() {
    let w = ChunkedStreamWriter::new(8);
    let chunks = w.finalize();
    assert!(chunks.is_empty());
}

#[test]
fn empty_writes_yield_no_chunks() {
    let mut w = ChunkedStreamWriter::new(8);
    w.write(b"");
    w.write(b"");
    let chunks = w.finalize();
    assert!(chunks.is_empty());
}

#[test]
fn round_trip_over_many_split_patterns() {
    let data: Vec<u8> = (0u16..500).map(|i| (i % 251) as u8).collect();
    for chunk_size in [1usize, 2, 3, 7, 64, 499, 500, 1000] {
        for piece in [1usize, 2, 3, 10, 499, 500] {
            let mut w = ChunkedStreamWriter::new(chunk_size);
            let mut at = 0;
            while at < data.len() {
                let end = (at + piece).min(data.len());
                w.write(&data[at..end]);
                at = end;
            }
            let chunks = w.finalize();
            for (i, c) in chunks.iter().enumerate() {
                assert!(!c.is_empty());
                assert!(c.len() <= chunk_size);
                if i + 1 < chunks.len() {
                    assert_eq!(c.len(), chunk_size);
                }
            }
            assert_eq!(collect(chunks), data);
        }
    }
}

#[test]
fn single_write_larger_than_chunk_size_is_split() {
    let mut w = ChunkedStreamWriter::new(3);
    w.write(b"ABCDEFGH");
    let chunks = w.finalize();
    assert_eq!(chunks.len(), 3);
    assert_eq!(chunks[0], b"ABC".to_vec());
    assert_eq!(chunks[1], b"DEF".to_vec());
    assert_eq!(chunks[2], b"GH".to_vec());
}

#[test]
fn exact_multiple_has_no_short_chunk() {
    let mut w = ChunkedStreamWriter::new(2);
    w.write(b"ABCD");
    let chunks = w.finalize();
    assert_eq!(chunks.len(), 2);
    assert_eq!(chunks[0], b"AB".to_vec());
    assert_eq!(chunks[1], b"CD".to_vec());
}
