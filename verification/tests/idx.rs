use dezero::data::idx::{decode_idx, decode_unpacked, read_idx, IdxError};
use flate2::write::GzEncoder;
use flate2::Compression;
use std::io::Write;

/// Builds an IDX file in memory: the header, then the payload.
fn idx_file(element_type: u8, shape: &[usize], payload: &[u8]) -> Vec<u8> {
    let mut bytes = vec![
        0x00,
        0x00,
        element_type,
        u8::try_from(shape.len()).expect("rank"),
    ];
    for &size in shape {
        bytes.extend_from_slice(&u32::try_from(size).expect("dimension").to_be_bytes());
    }
    bytes.extend_from_slice(payload);
    bytes
}

fn gzipped(bytes: &[u8]) -> Vec<u8> {
    let mut encoder = GzEncoder::new(Vec::new(), Compression::default());
    encoder.write_all(bytes).expect("in-memory write");
    encoder.finish().expect("in-memory finish")
}

#[test]
fn a_rank_one_file_round_trips() {
    let file = idx_file(0x08, &[4], &[10, 20, 30, 40]);
    let array = decode_idx(&file).expect("well formed");
    assert_eq!(array.shape(), &[4]);
    assert_eq!(array.data(), &[10, 20, 30, 40]);
    assert_eq!(array.ndim(), 1);
    assert_eq!(array.len(), 4);
    assert!(!array.is_empty());
}

#[test]
fn a_rank_three_file_keeps_its_dimensions_and_c_order() {
    let payload: Vec<u8> = (1..=12).collect();
    let file = idx_file(0x08, &[2, 3, 2], &payload);
    let array = decode_idx(&file).expect("well formed");
    assert_eq!(array.shape(), &[2, 3, 2]);
    assert_eq!(array.data()[..6], [1, 2, 3, 4, 5, 6]);
    assert_eq!(array.data()[6..], [7, 8, 9, 10, 11, 12]);
}

#[test]
fn dimensions_are_read_big_endian() {
    let file = idx_file(0x08, &[258], &[7_u8; 258]);
    assert_eq!(file[4..8], [0x00, 0x00, 0x01, 0x02]);
    assert_eq!(decode_idx(&file).expect("well formed").shape(), &[258]);
}

#[test]
fn a_rank_zero_file_is_a_single_element() {
    let file = idx_file(0x08, &[], &[42]);
    let array = decode_idx(&file).expect("well formed");
    assert_eq!(array.shape(), &[] as &[usize]);
    assert_eq!(array.data(), &[42]);
}

#[test]
fn a_zero_length_dimension_gives_an_empty_array() {
    let array = decode_idx(&idx_file(0x08, &[0, 28], &[])).expect("well formed");
    assert_eq!(array.shape(), &[0, 28]);
    assert!(array.is_empty());
}

#[test]
fn into_data_hands_over_the_buffer() {
    let array = decode_idx(&idx_file(0x08, &[3], &[1, 2, 3])).expect("well formed");
    assert_eq!(array.into_data(), vec![1, 2, 3]);
}

#[test]
fn a_gzipped_file_decodes_to_the_same_array() {
    let payload: Vec<u8> = (0..=255).collect();
    let plain = idx_file(0x08, &[16, 16], &payload);
    let compressed = gzipped(&plain);

    assert_eq!(compressed[..2], [0x1f, 0x8b], "the sniff has something to see");
    assert_ne!(compressed, plain);
    assert_eq!(
        read_idx(&compressed).expect("gzipped"),
        read_idx(&plain).expect("plain"),
        "the container must not change the array"
    );
}

#[test]
fn read_idx_accepts_an_uncompressed_file_too() {
    let plain = idx_file(0x08, &[2], &[1, 2]);
    assert_eq!(read_idx(&plain).expect("plain").data(), &[1, 2]);
}

#[test]
fn a_corrupt_gzip_stream_is_reported_as_such() {
    let mut broken = gzipped(&idx_file(0x08, &[4], &[1, 2, 3, 4]));
    let last = broken.len() - 1;
    broken[last] ^= 0xFF; // clobber the trailing length

    match read_idx(&broken) {
        Err(IdxError::Gzip(message)) => assert!(!message.is_empty()),
        other => panic!("expected a gzip error, got {other:?}"),
    }
}

#[test]
fn a_gzipped_file_that_is_not_idx_reports_the_inner_problem() {
    let compressed = gzipped(b"not an idx file at all");
    assert!(matches!(
        read_idx(&compressed),
        Err(IdxError::NotIdx { .. })
    ));
}

#[test]
fn what_unpacking_gave_is_decoded_or_handed_on() {
    let unpacked = decode_unpacked(Ok(idx_file(0x08, &[2], &[5, 6]))).expect("well formed");
    assert_eq!(unpacked.data(), &[5, 6]);
    assert_eq!(
        decode_unpacked(Err("broken".to_owned())),
        Err(IdxError::Gzip("broken".to_owned()))
    );
}

#[test]
fn a_short_file_is_truncated_not_misread() {
    assert_eq!(
        decode_idx(&[0, 0, 8]),
        Err(IdxError::Truncated {
            needed: 4,
            found: 3
        })
    );
    // The rank says three dimensions, so twelve more bytes are needed.
    assert_eq!(
        decode_idx(&[0, 0, 8, 3, 0, 0]),
        Err(IdxError::Truncated {
            needed: 16,
            found: 6
        })
    );
}

#[test]
fn a_wrong_magic_is_rejected() {
    assert_eq!(
        decode_idx(&[0x50, 0x4b, 8, 1, 0, 0, 0, 0]),
        Err(IdxError::NotIdx {
            magic: [0x50, 0x4b]
        }),
        "a zip file must not be mistaken for a rank-1 IDX"
    );
}

#[test]
fn an_unsupported_element_type_is_named() {
    assert_eq!(
        decode_idx(&idx_file(0x0D, &[1], &[0, 0, 0, 0])),
        Err(IdxError::UnsupportedElementType { code: 0x0D })
    );
}

#[test]
fn a_payload_that_does_not_match_the_shape_is_rejected() {
    assert_eq!(
        decode_idx(&idx_file(0x08, &[5], &[1, 2, 3])),
        Err(IdxError::PayloadLength {
            expected: 5,
            found: 3
        })
    );
    assert_eq!(
        decode_idx(&idx_file(0x08, &[2], &[1, 2, 3])),
        Err(IdxError::PayloadLength {
            expected: 2,
            found: 3
        }),
        "trailing bytes are as wrong as missing ones"
    );
}

#[test]
fn a_shape_that_overflows_is_rejected_rather_than_wrapping() {
    // Four dimensions of 2^32 - 1 multiply past 2^64.
    let mut bytes = vec![0x00, 0x00, 0x08, 4];
    for _ in 0..4 {
        bytes.extend_from_slice(&u32::MAX.to_be_bytes());
    }
    assert_eq!(decode_idx(&bytes), Err(IdxError::ShapeOverflow));
}

#[test]
fn idx_every_error_renders_something_a_reader_can_act_on() {
    let errors = [
        IdxError::Truncated {
            needed: 16,
            found: 4,
        },
        IdxError::NotIdx {
            magic: [0x1f, 0x8b],
        },
        IdxError::UnsupportedElementType { code: 0x0D },
        IdxError::PayloadLength {
            expected: 10,
            found: 9,
        },
        IdxError::ShapeOverflow,
        IdxError::Gzip("invalid deflate stream".to_owned()),
    ];
    for error in &errors {
        let rendered = error.to_string();
        assert!(rendered.starts_with("IDX: "), "{rendered}");
    }
}

#[test]
fn errors_spell_their_numbers() {
    assert_eq!(
        IdxError::Truncated {
            needed: 16,
            found: 4
        }
        .to_string(),
        "IDX: the file needs at least 16 bytes but has 4"
    );
    assert_eq!(
        IdxError::NotIdx {
            magic: [0x1f, 0x0b]
        }
        .to_string(),
        "IDX: expected the magic bytes 00 00 but found 1f 0b"
    );
    assert_eq!(
        IdxError::UnsupportedElementType { code: 0x0D }.to_string(),
        "IDX: element type 0x0d is not supported; this reader decodes 0x08 (unsigned byte), \
         which is what MNIST uses"
    );
    assert_eq!(
        IdxError::PayloadLength {
            expected: 1000,
            found: 9
        }
        .to_string(),
        "IDX: the header describes 1000 elements but the file holds 9 bytes"
    );
    assert_eq!(
        IdxError::Gzip("bad".to_owned()).to_string(),
        "IDX: the gzip container is unreadable: bad"
    );
}

#[test]
fn dimensions_that_multiply_to_nothing_are_an_empty_array() {
    // three dimensions that are too much together, and one of 0
    let bytes = [&[0_u8, 0, 8, 4][..], &[255; 12][..], &[0; 4][..]].concat();
    let array = decode_idx(&bytes).expect("nothing is held, and nothing follows");
    let widest = u32::MAX as usize;
    assert_eq!(array.shape(), &[widest, widest, widest, 0]);
    assert!(array.is_empty());
    // without the 0 they cannot be counted
    let bytes = [&[0_u8, 0, 8, 3][..], &[255; 12][..]].concat();
    assert_eq!(decode_idx(&bytes), Err(IdxError::ShapeOverflow));
}
