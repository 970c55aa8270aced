use bav::writer::encode_movie;
use bav::{encode, Error, Metadata, Movie};

#[test]
fn round_trips_indexed_compressed_chunks_and_seeks() {
    let frames = vec![
        vec![0b0000_0000, 0b1111_0000],
        vec![0b0000_0001, 0b1111_0000],
        vec![0b0000_0011, 0b1100_0000],
        vec![0b1111_1111, 0b0000_0000],
    ];
    let metadata = Metadata {
        width: 8,
        height: 2,
        fps: 2,
        frame_count: frames.len() as u32,
        keyframe_interval: 2,
    };
    let encoded = encode(metadata, &frames).unwrap();
    assert!(encoded.len() < 512);
    let mut movie = Movie::open(encoded).unwrap();
    assert_eq!(movie.metadata(), metadata);
    for index in [3, 0, 2, 1] {
        assert_eq!(movie.frame(index).unwrap(), frames[index as usize]);
    }
}

#[test]
fn rejects_an_index_that_does_not_cover_the_movie() {
    let metadata = Metadata {
        width: 8,
        height: 1,
        fps: 1,
        frame_count: 1,
        keyframe_interval: 1,
    };
    let mut encoded = encode(metadata, &[vec![0]]).unwrap();
    let index_offset = u64::from_le_bytes(encoded[24..32].try_into().unwrap()) as usize;
    encoded[index_offset..index_offset + 4].copy_from_slice(&1_u32.to_le_bytes());
    assert!(matches!(
        Movie::open(encoded),
        Err(Error::Invalid("invalid chunk index"))
    ));
}

fn sample_metadata(frame_count: u32, keyframe_interval: u16) -> Metadata {
    Metadata {
        width: 12,
        height: 3,
        fps: 10,
        frame_count,
        keyframe_interval,
    }
}

fn sample_frames(count: usize) -> Vec<Vec<u8>> {
    (0..count)
        .map(|index| {
            (0..6)
                .map(|byte| ((index * 7 + byte * 13) % 256) as u8 & if byte % 2 == 0 { 0xff } else { 0xf0 })
                .collect()
        })
        .collect()
}

#[test]
fn row_bytes_and_frame_size_round_up_to_whole_bytes() {
    let metadata = Metadata { width: 9, height: 5, fps: 1, frame_count: 1, keyframe_interval: 1 };
    assert_eq!(metadata.row_bytes(), 2);
    assert_eq!(metadata.frame_size(), 10);
    let exact = Metadata { width: 16, ..metadata };
    assert_eq!(exact.row_bytes(), 2);
    let one = Metadata { width: 1, height: 1, ..metadata };
    assert_eq!(one.frame_size(), 1);
}

#[test]
fn every_frame_reads_back_in_any_order() {
    let frames = sample_frames(23);
    let metadata = sample_metadata(23, 5);
    let encoded = encode(metadata, &frames).unwrap();
    let mut movie = Movie::open(encoded).unwrap();
    assert_eq!(movie.metadata(), metadata);
    for index in (0..23).rev().chain(0..23).chain([7, 7, 0, 22, 11]) {
        assert_eq!(movie.frame(index).unwrap(), frames[index as usize].as_slice());
    }
    assert!(matches!(movie.frame(23), Err(Error::FrameOutOfRange)));
}

#[test]
fn header_and_index_are_laid_out_as_documented() {
    let frames = sample_frames(5);
    let metadata = sample_metadata(5, 2);
    let encoded = encode(metadata, &frames).unwrap();
    assert_eq!(&encoded[0..4], b"BAV2");
    assert_eq!(u16::from_le_bytes([encoded[4], encoded[5]]), 2);
    assert_eq!(u16::from_le_bytes([encoded[6], encoded[7]]), 12);
    assert_eq!(u16::from_le_bytes([encoded[8], encoded[9]]), 3);
    assert_eq!(u16::from_le_bytes([encoded[10], encoded[11]]), 10);
    assert_eq!(u32::from_le_bytes(encoded[12..16].try_into().unwrap()), 5);
    assert_eq!(u16::from_le_bytes([encoded[16], encoded[17]]), 2);
    assert_eq!(&encoded[18..20], &[0, 0]);
    assert_eq!(u32::from_le_bytes(encoded[20..24].try_into().unwrap()), 3);
    let index_offset = u64::from_le_bytes(encoded[24..32].try_into().unwrap()) as usize;
    assert_eq!(encoded.len(), index_offset + 3 * 24);
    let mut expected_offset = 32;
    for (chunk, (first, count)) in [(0u32, 2u16), (2, 2), (4, 1)].iter().enumerate() {
        let entry = &encoded[index_offset + chunk * 24..index_offset + chunk * 24 + 24];
        assert_eq!(u32::from_le_bytes(entry[0..4].try_into().unwrap()), *first);
        assert_eq!(u16::from_le_bytes([entry[4], entry[5]]), *count);
        assert_eq!(&entry[6..8], &[0, 0]);
        let offset = u64::from_le_bytes(entry[8..16].try_into().unwrap()) as usize;
        assert_eq!(offset, expected_offset);
        expected_offset += u32::from_le_bytes(entry[16..20].try_into().unwrap()) as usize;
    }
    assert_eq!(expected_offset, index_offset);
}

#[test]
fn compression_shrinks_repetitive_movies() {
    let frames = vec![vec![0b1010_1010; 1000]; 64];
    let metadata = Metadata { width: 8000, height: 1, fps: 8, frame_count: 64, keyframe_interval: 8 };
    let encoded = encode(metadata, &frames).unwrap();
    assert!(encoded.len() < 64 * 1000 / 4);
    let mut movie = Movie::open(encoded).unwrap();
    assert_eq!(movie.frame(63).unwrap(), frames[63].as_slice());
}

#[test]
fn encode_rejects_frames_that_do_not_fit_the_metadata() {
    let frames = sample_frames(3);
    assert!(matches!(
        encode(sample_metadata(4, 2), &frames),
        Err(Error::Invalid("frame count does not match metadata"))
    ));
    let mut wrong = sample_frames(3);
    wrong[1].push(0);
    assert!(matches!(
        encode(sample_metadata(3, 2), &wrong),
        Err(Error::Invalid("incorrect frame size"))
    ));
}

#[test]
fn open_rejects_damaged_headers() {
    let frames = sample_frames(4);
    let good = encode(sample_metadata(4, 2), &frames).unwrap();
    assert!(matches!(Movie::open(good[..31].to_vec()), Err(Error::Truncated)));
    let mut bad_magic = good.clone();
    bad_magic[3] = b'3';
    assert!(matches!(Movie::open(bad_magic), Err(Error::Invalid("bad magic"))));
    let mut bad_version = good.clone();
    bad_version[4] = 3;
    assert!(matches!(Movie::open(bad_version), Err(Error::Invalid("unsupported version"))));
    let mut zero_fps = good.clone();
    zero_fps[10] = 0;
    zero_fps[11] = 0;
    assert!(matches!(Movie::open(zero_fps), Err(Error::Invalid("zero-valued metadata"))));
    let mut index_past_end = good.clone();
    index_past_end[24..32].copy_from_slice(&(good.len() as u64).to_le_bytes());
    assert!(matches!(Movie::open(index_past_end), Err(Error::Truncated)));
    let mut index_in_header = good.clone();
    index_in_header[24..32].copy_from_slice(&8u64.to_le_bytes());
    assert!(matches!(Movie::open(index_in_header), Err(Error::Truncated)));
    let mut too_many_frames = good.clone();
    too_many_frames[12..16].copy_from_slice(&5u32.to_le_bytes());
    assert!(matches!(
        Movie::open(too_many_frames),
        Err(Error::Invalid("chunk index does not cover all frames"))
    ));
}

#[test]
fn open_rejects_damaged_index_entries() {
    let frames = sample_frames(4);
    let good = encode(sample_metadata(4, 2), &frames).unwrap();
    let index_offset = u64::from_le_bytes(good[24..32].try_into().unwrap()) as usize;
    let mut empty_chunk = good.clone();
    empty_chunk[index_offset + 4..index_offset + 6].copy_from_slice(&0u16.to_le_bytes());
    assert!(matches!(Movie::open(empty_chunk), Err(Error::Invalid("invalid chunk index"))));
    let mut into_header = good.clone();
    into_header[index_offset + 8..index_offset + 16].copy_from_slice(&4u64.to_le_bytes());
    assert!(matches!(Movie::open(into_header), Err(Error::Invalid("invalid chunk index"))));
    let mut into_index = good.clone();
    into_index[index_offset + 16..index_offset + 20].copy_from_slice(&100_000u32.to_le_bytes());
    assert!(matches!(Movie::open(into_index), Err(Error::Invalid("invalid chunk index"))));
    let mut overflowing = good.clone();
    overflowing[index_offset + 8..index_offset + 16].copy_from_slice(&u64::MAX.to_le_bytes());
    assert!(matches!(
        Movie::open(overflowing),
        Err(Error::Invalid("chunk offset is too large")) | Err(Error::Truncated)
    ));
}

#[test]
fn damaged_chunks_are_reported_when_their_frames_are_read() {
    let frames = sample_frames(4);
    let good = encode(sample_metadata(4, 2), &frames).unwrap();
    let index_offset = u64::from_le_bytes(good[24..32].try_into().unwrap()) as usize;
    let mut wrong_size = good.clone();
    let raw_len = u32::from_le_bytes(wrong_size[index_offset + 20..index_offset + 24].try_into().unwrap());
    wrong_size[index_offset + 20..index_offset + 24].copy_from_slice(&(raw_len + 1).to_le_bytes());
    let mut movie = Movie::open(wrong_size).unwrap();
    assert!(matches!(
        movie.frame(0),
        Err(Error::Invalid("incorrect uncompressed chunk size"))
    ));
    assert_eq!(movie.frame(2).unwrap(), frames[2].as_slice());
    let mut garbage = good.clone();
    for byte in &mut garbage[32..36] {
        *byte = 0xAB;
    }
    let mut movie = Movie::open(garbage).unwrap();
    assert!(matches!(movie.frame(1), Err(Error::Io(_))));
    assert_eq!(movie.frame(3).unwrap(), frames[3].as_slice());
}

#[test]
fn encode_movie_puts_a_keyframe_at_every_second() {
    let frames = sample_frames(7);
    let encoded = encode_movie(12, 3, 3, &frames).unwrap();
    assert_eq!(u32::from_le_bytes(encoded[12..16].try_into().unwrap()), 7);
    assert_eq!(u16::from_le_bytes([encoded[16], encoded[17]]), 3);
    let index_offset = u64::from_le_bytes(encoded[24..32].try_into().unwrap()) as usize;
    assert_eq!(u32::from_le_bytes(encoded[20..24].try_into().unwrap()), 3);
    for (chunk, first) in [0u32, 3, 6].iter().enumerate() {
        let at = index_offset + chunk * 24;
        assert_eq!(u32::from_le_bytes(encoded[at..at + 4].try_into().unwrap()), *first);
    }
    let mut movie = Movie::open(encoded).unwrap();
    assert_eq!(movie.metadata(), Metadata { width: 12, height: 3, fps: 3, frame_count: 7, keyframe_interval: 3 });
    for index in 0..7 {
        let frame = movie.frame(index).unwrap();
        assert_eq!(frame.len(), movie_metadata_frame_size());
        assert_eq!(frame, frames[index as usize].as_slice());
    }
}

fn movie_metadata_frame_size() -> usize {
    sample_metadata(1, 1).frame_size()
}

#[test]
fn a_movie_with_zero_metadata_does_not_open() {
    let metadata = Metadata { width: 8, height: 1, fps: 0, frame_count: 2, keyframe_interval: 1 };
    let encoded = encode(metadata, &[vec![1], vec![2]]).unwrap();
    assert!(matches!(Movie::open(encoded), Err(Error::Invalid("zero-valued metadata"))));
    let empty = Metadata { width: 0, height: 4, fps: 1, frame_count: 1, keyframe_interval: 1 };
    let encoded = encode(empty, &[vec![]]).unwrap();
    assert!(matches!(Movie::open(encoded), Err(Error::Invalid("zero-valued metadata"))));
}
