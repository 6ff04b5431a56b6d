use chirp::transfer::tcp_receiver::{parse_chunk_header, total_size};
use chirp::transfer::tcp_sender::{chunk_header, next_read, plan_chunks, Chunk};

#[test]
fn chunks_make_up_the_file() {
    let chunks = plan_chunks(103, 4);
    assert_eq!(
        chunks,
        [
            Chunk { stream_id: 0, offset: 0, length: 25 },
            Chunk { stream_id: 1, offset: 25, length: 25 },
            Chunk { stream_id: 2, offset: 50, length: 25 },
            Chunk { stream_id: 3, offset: 75, length: 28 },
        ]
    );
    assert_eq!(total_size(&chunks), Some(103));
}

#[test]
fn small_files_go_to_the_last_stream() {
    let chunks = plan_chunks(3, 8);
    assert_eq!(chunks.len(), 8);
    assert!(chunks[..7].iter().all(|c| c.length == 0 && c.offset == 0));
    assert_eq!(chunks[7].length, 3);
    assert_eq!(plan_chunks(u64::MAX, 1)[0].length, u64::MAX);
}

#[test]
fn chunk_headers_are_read_back() {
    let c = Chunk { stream_id: 0x0102_0304, offset: 0x1122_3344_5566_7788, length: 9 };
    let bytes = chunk_header(c);
    assert_eq!(
        bytes,
        [1, 2, 3, 4, 0x11, 0x22, 0x33, 0x44, 0x55, 0x66, 0x77, 0x88, 0, 0, 0, 0, 0, 0, 0, 9]
    );
    let header: [u8; 20] = bytes.try_into().unwrap();
    assert_eq!(parse_chunk_header(&header), c);
}

#[test]
fn the_furthest_chunk_tells_the_size() {
    assert_eq!(total_size(&[]), Some(0));
    let a = Chunk { stream_id: 0, offset: 10, length: 5 };
    let b = Chunk { stream_id: 1, offset: 0, length: 10 };
    assert_eq!(total_size(&[a, b]), Some(15));
    let c = Chunk { stream_id: 2, offset: u64::MAX, length: 1 };
    assert_eq!(total_size(&[a, c]), None);
}

#[test]
fn bytes_are_moved_in_pieces() {
    assert_eq!(next_read(0), 0);
    assert_eq!(next_read(65_535), 65_535);
    assert_eq!(next_read(65_536), 65_536);
    assert_eq!(next_read(10_000_000_000), 65_536);
}
