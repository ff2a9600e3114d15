use noodles::block::{
    decode_block, encode_block, frame_block, header_block_size, is_terminator_at, terminator,
    MAX_BLOCK_SIZE,
};
use noodles::block_cursor::BlockCursor;
use noodles::error::BgzfError;
use noodles::reader::Reader;
use noodles::virtual_position::{VirtualPosition, MAX_COMPRESSED_OFFSET};
use noodles::writer::{Writer, DEFAULT_BLOCK_SIZE_LIMIT};

const TERMINATOR: [u8; 28] = [
    0x1f, 0x8b, 0x08, 0x04, 0x00, 0x00, 0x00, 0x00, 0x00, 0xff, 0x06, 0x00, 0x42, 0x43, 0x02,
    0x00, 0x1b, 0x00, 0x03, 0x00, 0x00, 0x00, 0x00, 0x00, 0x00, 0x00, 0x00, 0x00,
];

fn decode_all(block: &[u8]) -> Result<Vec<u8>, BgzfError> {
    let mut out = Vec::new();
    decode_block(block, 0, true, &mut out).map(|_| out)
}

fn read_exactly(reader: &mut Reader, k: usize) -> Vec<u8> {
    let mut buf = Vec::new();
    while buf.len() < k {
        let want = k - buf.len();
        let n = reader.read(&mut buf, want).unwrap();
        assert!(n > 0);
    }
    buf
}

#[test]
fn block_round_trip_for_several_lengths() {
    for len in [0usize, 1, 2, 17, 255, 1000, 4096, 65535] {
        let data: Vec<u8> = (0..len).map(|i| (i * 7 % 251) as u8).collect();
        let block = encode_block(&data).unwrap();
        assert_eq!(decode_all(&block).unwrap(), data);
        let size = u16::from_le_bytes([block[16], block[17]]) as usize + 1;
        assert_eq!(size, block.len());
    }
}

#[test]
fn block_size_boundary() {
    let data = vec![0u8; MAX_BLOCK_SIZE];
    let block = encode_block(&data).unwrap();
    assert_eq!(decode_all(&block).unwrap(), data);
    let data = vec![0u8; MAX_BLOCK_SIZE + 1];
    assert_eq!(encode_block(&data), Err(BgzfError::Contract));
}

#[test]
fn block_layout_is_fixed() {
    let block = encode_block(b"hello").unwrap();
    assert_eq!(&block[..16], &TERMINATOR[..16]);
    let n = block.len();
    assert_eq!(&block[n - 4..], &5u32.to_le_bytes());
    // CRC-32 of "hello"
    assert_eq!(&block[n - 8..n - 4], &0x3610a686u32.to_le_bytes());
}

#[test]
fn empty_block_encodes_as_terminator() {
    assert_eq!(encode_block(&[]).unwrap(), TERMINATOR.to_vec());
    assert_eq!(terminator(), TERMINATOR.to_vec());
    assert!(is_terminator_at(&TERMINATOR, 0));
    assert!(!is_terminator_at(&TERMINATOR[..27], 0));
}

#[test]
fn virtual_position_round_trip() {
    for (c, u) in [(0u64, 0u64), (1, 1), (12345, 65535), (MAX_COMPRESSED_OFFSET, 0), (MAX_COMPRESSED_OFFSET, 65535)] {
        let v = VirtualPosition::pack(c, u).unwrap();
        assert_eq!(v.compressed(), c);
        assert_eq!(v.uncompressed() as u64, u);
        assert_eq!(v.to_u64(), (c << 16) | u);
    }
    assert_eq!(VirtualPosition::pack(0, 65536), Err(BgzfError::Contract));
    assert_eq!(VirtualPosition::pack(MAX_COMPRESSED_OFFSET + 1, 0), Err(BgzfError::Contract));
    assert_eq!(VirtualPosition::from_u64(0x0001_0002).compressed(), 1);
    assert_eq!(VirtualPosition::from_u64(0x0001_0002).uncompressed(), 2);
}

#[test]
fn seek_matches_sequential_reads() {
    let data: Vec<u8> = (0..200_000u32).map(|i| (i * 31 % 253) as u8).collect();
    let mut writer = Writer::with_block_size_limit(10_000).unwrap();
    let mut marks = Vec::new();
    let mut at = 0;
    for chunk in data.chunks(3_333) {
        marks.push((writer.virtual_position(), at));
        writer.write(chunk).unwrap();
        at += chunk.len();
    }
    let out = writer.finish().unwrap();

    let mut reader = Reader::new(out.clone());
    let mut all = Vec::new();
    assert_eq!(reader.read_to_end(&mut all), Ok(data.len()));
    assert_eq!(all, data);

    let mut reader = Reader::new(out);
    for &(vp, logical) in marks.iter().rev() {
        reader.seek(vp).unwrap();
        let k = 500.min(data.len() - logical);
        assert_eq!(read_exactly(&mut reader, k), data[logical..logical + k].to_vec());
    }
}

#[test]
fn reader_virtual_position_resumes_reading() {
    let mut writer = Writer::with_block_size_limit(100).unwrap();
    let data: Vec<u8> = (0..1000u32).map(|i| i as u8).collect();
    writer.write(&data).unwrap();
    let out = writer.finish().unwrap();
    let mut reader = Reader::new(out);
    let first = read_exactly(&mut reader, 150);
    assert_eq!(first, data[..150].to_vec());
    let vp = reader.virtual_position();
    let next = read_exactly(&mut reader, 300);
    reader.seek(vp).unwrap();
    assert_eq!(read_exactly(&mut reader, 300), next);
}

#[test]
fn terminated_stream_ends_cleanly_and_truncated_stream_fails() {
    let mut writer = Writer::new();
    writer.write(b"some bytes").unwrap();
    let out = writer.finish().unwrap();
    let mut reader = Reader::new(out.clone());
    let mut buf = Vec::new();
    assert_eq!(reader.read_to_end(&mut buf), Ok(10));
    assert_eq!(buf, b"some bytes");
    assert!(reader.is_terminated());

    let data_only = out[..out.len() - 28].to_vec();
    let mut reader = Reader::new(data_only);
    let mut buf = Vec::new();
    assert_eq!(reader.read_to_end(&mut buf), Ok(10));
    assert!(!reader.is_terminated());

    let data_block_len = out.len() - 28;
    let truncated = out[..data_block_len - 3].to_vec();
    let mut reader = Reader::new(truncated);
    let mut buf = Vec::new();
    assert_eq!(reader.read(&mut buf, 10), Err(BgzfError::Truncated));
    let mut reader = Reader::new(out[..5].to_vec());
    assert_eq!(reader.read(&mut buf, 10), Err(BgzfError::Truncated));
}

#[test]
fn tiny_blocks_scenario() {
    let mut writer = Writer::with_block_size_limit(4).unwrap();
    writer.write(b"ABCD").unwrap();
    let after_fourth = writer.virtual_position();
    writer.write(b"EFGH").unwrap();
    let first_block_len = encode_block(b"ABCD").unwrap().len();
    let second_block_len = encode_block(b"EFGH").unwrap().len();
    let out = writer.finish().unwrap();
    assert_eq!(out.len(), first_block_len + second_block_len + 28);
    assert!(is_terminator_at(&out, first_block_len + second_block_len));
    assert_eq!(after_fourth.compressed(), first_block_len as u64);
    assert_eq!(after_fourth.uncompressed(), 0);

    let mut reader = Reader::new(out);
    let mut buf = Vec::new();
    assert_eq!(reader.read_to_end(&mut buf), Ok(8));
    assert_eq!(buf, b"ABCDEFGH");
}

#[test]
fn empty_input_gives_only_terminator() {
    let writer = Writer::new();
    let out = writer.finish().unwrap();
    assert_eq!(out, TERMINATOR.to_vec());
    let mut reader = Reader::new(out);
    let mut buf = Vec::new();
    assert_eq!(reader.read(&mut buf, 10), Ok(0));
    assert!(buf.is_empty());
}

#[test]
fn flipped_payload_bit_is_detected() {
    let data: Vec<u8> = b"the quick brown fox jumps over the lazy dog, again and again".to_vec();
    let block = encode_block(&data).unwrap();
    for i in 18..block.len() - 8 {
        for bit in 0..8 {
            let mut bad = block.clone();
            bad[i] ^= 1 << bit;
            match decode_all(&bad) {
                Err(BgzfError::Framing) | Err(BgzfError::Integrity) => {}
                Ok(out) => assert_eq!(out, data),
                Err(e) => panic!("unexpected error {:?}", e),
            }
        }
    }
}

#[test]
fn checksum_mismatch_is_integrity_error_unless_disabled() {
    let mut block = encode_block(b"payload").unwrap();
    let n = block.len();
    block[n - 8] ^= 0xff;
    assert_eq!(decode_all(&block), Err(BgzfError::Integrity));
    let mut out = Vec::new();
    assert_eq!(decode_block(&block, 0, false, &mut out), Ok(Some(n)));
    assert_eq!(out, b"payload");
    let mut reader = Reader::with_checksum_verification(block, false);
    assert!(!reader.verifies_checksums());
    let mut buf = Vec::new();
    assert_eq!(reader.read_to_end(&mut buf), Ok(7));
}

#[test]
fn framing_errors() {
    let mut block = encode_block(b"payload").unwrap();
    block[0] = 0;
    assert_eq!(decode_all(&block), Err(BgzfError::Framing));
    let mut block = encode_block(b"payload").unwrap();
    block[16] = 3;
    block[17] = 0;
    assert_eq!(decode_all(&block), Err(BgzfError::Framing));
    let mut out = Vec::new();
    assert_eq!(decode_block(&[], 0, true, &mut out), Ok(None));
}

#[test]
fn seek_contract_errors() {
    let mut writer = Writer::with_block_size_limit(10).unwrap();
    writer.write(b"0123456789abc").unwrap();
    let out = writer.finish().unwrap();
    let len = out.len() as u64;
    let mut reader = Reader::new(out);
    assert_eq!(reader.seek(VirtualPosition::pack(0, 11).unwrap()), Err(BgzfError::Contract));
    assert_eq!(reader.seek(VirtualPosition::pack(len + 1, 0).unwrap()), Err(BgzfError::Contract));
    assert_eq!(reader.seek(VirtualPosition::pack(len, 1).unwrap()), Err(BgzfError::Contract));
    assert_eq!(reader.seek(VirtualPosition::pack(0, 3).unwrap()), Ok(()));
    assert_eq!(read_exactly(&mut reader, 7), b"3456789".to_vec());
    assert_eq!(reader.seek(VirtualPosition::pack(1, 0).unwrap()), Err(BgzfError::Framing));
}

#[test]
fn writer_limits_and_flush() {
    assert!(Writer::with_block_size_limit(0).is_err());
    assert!(Writer::with_block_size_limit(MAX_BLOCK_SIZE + 1).is_err());
    assert!(Writer::with_block_size_limit(MAX_BLOCK_SIZE).is_ok());
    let mut writer = Writer::new();
    assert_eq!(DEFAULT_BLOCK_SIZE_LIMIT, 65280);
    writer.flush().unwrap();
    assert!(writer.get_ref().is_empty());
    writer.write(b"xy").unwrap();
    assert_eq!(writer.virtual_position().uncompressed(), 2);
    writer.flush().unwrap();
    let len = writer.get_ref().len();
    assert_eq!(writer.virtual_position().compressed(), len as u64);
    assert_eq!(writer.virtual_position().uncompressed(), 0);
    let mut reader = Reader::new(writer.get_ref().clone());
    assert_eq!(reader.read_block(), Ok(Some(2)));
    assert_eq!(reader.block(), b"xy");
    assert_eq!(reader.position(), len as u64);
    assert_eq!(reader.read_block(), Ok(None));
}

#[test]
fn frame_block_layout_and_size_limit() {
    assert_eq!(frame_block(&[3, 0], 0, 0), Ok(TERMINATOR.to_vec()));
    let framed = frame_block(&[1, 2, 3], 0x0403_0201, 9).unwrap();
    assert_eq!(framed.len(), 29);
    assert_eq!(&framed[16..18], &[28, 0]);
    assert_eq!(&framed[18..21], &[1, 2, 3]);
    assert_eq!(&framed[21..], &[1, 2, 3, 4, 9, 0, 0, 0]);
    let largest = vec![0u8; MAX_BLOCK_SIZE - 26];
    let framed = frame_block(&largest, 0, 0).unwrap();
    assert_eq!(framed.len(), MAX_BLOCK_SIZE);
    assert_eq!(&framed[16..18], &[0xff, 0xff]);
    let too_large = vec![0u8; MAX_BLOCK_SIZE - 25];
    assert_eq!(frame_block(&too_large, 0, 0), Err(BgzfError::Framing));
}

#[test]
fn read_block_reports_decompressed_length() {
    let data = vec![7u8; 5000];
    let mut stream = encode_block(&data).unwrap();
    let first_len = stream.len();
    stream.extend_from_slice(&TERMINATOR);
    let mut reader = Reader::new(stream);
    assert_eq!(reader.position(), 0);
    assert_eq!(reader.read_block(), Ok(Some(5000)));
    assert_eq!(reader.block(), &data[..]);
    assert_eq!(reader.position(), first_len as u64);
    assert_eq!(reader.read_block(), Ok(Some(0)));
    assert!(reader.is_terminated());
    assert_eq!(reader.read_block(), Ok(None));
}

#[test]
fn header_block_size_reads_declared_size() {
    let block = encode_block(b"abc").unwrap();
    assert_eq!(header_block_size(&block[..18]), Ok(block.len()));
    assert_eq!(header_block_size(&TERMINATOR), Ok(28));
    assert_eq!(header_block_size(&block[..17]), Err(BgzfError::Truncated));
    let mut bad = block.clone();
    bad[1] = 0;
    assert_eq!(header_block_size(&bad), Err(BgzfError::Framing));
    let mut small = block.clone();
    small[16] = 10;
    small[17] = 0;
    assert_eq!(header_block_size(&small), Err(BgzfError::Framing));
}

#[test]
fn block_cursor_reads_one_block_at_a_time() {
    let first = encode_block(b"ABCD").unwrap();
    let second = encode_block(b"EFGH").unwrap();
    let mut cursor = BlockCursor::new(true);
    assert_eq!(cursor.next_block_offset(), Some(0));
    assert_eq!(cursor.load(0, &first), Ok(Some(4)));
    assert_eq!(cursor.next_block_offset(), None);
    let mut buf = Vec::new();
    assert_eq!(cursor.read(&mut buf, 3), 3);
    assert_eq!(cursor.virtual_position(), VirtualPosition::pack(0, 3).unwrap());
    assert_eq!(cursor.read(&mut buf, 10), 1);
    let next = first.len() as u64;
    assert_eq!(cursor.virtual_position(), VirtualPosition::pack(next, 0).unwrap());
    assert_eq!(cursor.next_block_offset(), Some(next));
    assert_eq!(cursor.load(next, &second), Ok(Some(4)));
    assert_eq!(cursor.read(&mut buf, 10), 4);
    assert_eq!(buf, b"ABCDEFGH");
    assert_eq!(cursor.seek_within(VirtualPosition::pack(next, 1).unwrap()), Ok(true));
    assert_eq!(cursor.seek_within(VirtualPosition::pack(next, 5).unwrap()), Err(BgzfError::Contract));
    assert_eq!(cursor.seek_within(VirtualPosition::pack(0, 1).unwrap()), Ok(false));
    assert_eq!(cursor.set_cursor(5), Err(BgzfError::Contract));
    assert_eq!(cursor.set_cursor(2), Ok(()));
    let mut rest = Vec::new();
    assert_eq!(cursor.read(&mut rest, 10), 2);
    assert_eq!(rest, b"GH");
    assert_eq!(cursor.load(100, &[]), Ok(None));
    assert_eq!(cursor.load(0, &first[..10]), Err(BgzfError::Truncated));
}
