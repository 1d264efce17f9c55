use laby2_repack::error::{IoErrorKind, RepackerError, RepackerValueError};
use laby2_repack::parse::{parse, parse_fixed};
use laby2_repack::io::{
    chunked_copy, read, read_exact, read_fixed, write_all, ByteRead, ByteSeek, ByteStream,
    ByteWrite, SeekFrom, StreamLen, CHUNK_SIZE,
};

#[test]
fn read_takes_what_is_left() {
    let mut s = ByteStream::new(vec![1, 2, 3, 4, 5]);
    let mut buf = [0u8; 3];
    assert_eq!(s.read(&mut buf), Ok(3));
    assert_eq!(buf, [1, 2, 3]);
    assert_eq!(s.read(&mut buf), Ok(2));
    assert_eq!(buf, [4, 5, 3]);
    assert_eq!(s.read(&mut buf), Ok(0));
    assert_eq!(buf, [4, 5, 3]);
    assert_eq!(s.pos, 5);
}

#[test]
fn read_past_the_end_yields_nothing() {
    let mut s = ByteStream::new(vec![1, 2, 3]);
    assert_eq!(s.seek(SeekFrom::Start(10)), Ok(10));
    let mut buf = [7u8; 2];
    assert_eq!(s.read(&mut buf), Ok(0));
    assert_eq!(buf, [7, 7]);
    assert_eq!(s.pos, 10);
}

#[test]
fn write_replaces_and_grows() {
    let mut s = ByteStream::new(vec![1, 2, 3, 4]);
    assert_eq!(s.seek(SeekFrom::Start(2)), Ok(2));
    assert_eq!(s.write(&[9, 9, 9]), Ok(3));
    assert_eq!(s.data, vec![1, 2, 9, 9, 9]);
    assert_eq!(s.pos, 5);
    assert_eq!(s.seek(SeekFrom::Start(0)), Ok(0));
    assert_eq!(s.write(&[7]), Ok(1));
    assert_eq!(s.data, vec![7, 2, 9, 9, 9]);
    assert_eq!(s.flush(), Ok(()));
}

#[test]
fn write_past_the_end_is_refused() {
    let mut s = ByteStream::new(vec![1, 2]);
    assert_eq!(s.seek(SeekFrom::Start(3)), Ok(3));
    assert_eq!(s.write(&[5]), Err(IoErrorKind::InvalidInput));
    assert_eq!(s.data, vec![1, 2]);
    assert_eq!(s.pos, 3);
    assert_eq!(write_all(&mut s, &[5]), Err(IoErrorKind::InvalidInput));
    assert_eq!(write_all(&mut s, &[]), Ok(()));
}

#[test]
fn seek_from_each_origin() {
    let mut s = ByteStream::new(vec![0; 10]);
    assert_eq!(s.seek(SeekFrom::End(0)), Ok(10));
    assert_eq!(s.seek(SeekFrom::End(-4)), Ok(6));
    assert_eq!(s.seek(SeekFrom::Current(3)), Ok(9));
    assert_eq!(s.seek(SeekFrom::Current(-9)), Ok(0));
    assert_eq!(s.seek(SeekFrom::Current(-1)), Err(IoErrorKind::InvalidInput));
    assert_eq!(s.stream_position(), Ok(0));
    assert_eq!(s.seek(SeekFrom::End(-11)), Err(IoErrorKind::InvalidInput));
    assert_eq!(s.seek(SeekFrom::Start(u64::MAX)), Ok(u64::MAX));
    assert_eq!(s.seek(SeekFrom::Current(1)), Err(IoErrorKind::InvalidInput));
    assert_eq!(s.stream_position(), Ok(u64::MAX));
}

#[test]
fn stream_len_keeps_the_position() {
    let mut s = ByteStream::new(vec![0; 42]);
    assert_eq!(s.seek(SeekFrom::Start(7)), Ok(7));
    assert_eq!(s.stream_len(), Ok(42));
    assert_eq!(s.pos, 7);
    assert_eq!(s.seek(SeekFrom::End(0)), Ok(42));
    assert_eq!(s.stream_len(), Ok(42));
    assert_eq!(s.pos, 42);
    let mut empty = ByteStream::new(Vec::new());
    assert_eq!(empty.stream_len(), Ok(0));
}

#[test]
fn read_exact_fills_or_fails() {
    let mut s = ByteStream::new(vec![1, 2, 3]);
    let mut two = [0u8; 2];
    assert_eq!(read_exact(&mut s, &mut two), Ok(()));
    assert_eq!(two, [1, 2]);
    assert_eq!(read_exact(&mut s, &mut two), Err(IoErrorKind::UnexpectedEof));
    assert_eq!(s.pos, 3);
    let mut none = [0u8; 0];
    assert_eq!(read_exact(&mut s, &mut none), Ok(()));
}

#[test]
fn read_fixed_reads_exactly() {
    let mut s = ByteStream::new(vec![1, 2, 3, 4, 5]);
    assert_eq!(read_fixed::<4, ByteStream>(&mut s), Ok([1, 2, 3, 4]));
    assert_eq!(s.pos, 4);
    assert_eq!(read_fixed::<4, ByteStream>(&mut s), Err(IoErrorKind::UnexpectedEof));
    assert_eq!(s.pos, 5);
    assert_eq!(read_fixed::<0, ByteStream>(&mut s), Ok([]));
}

#[test]
fn read_into_a_short_buffer() {
    let data: Vec<u8> = (0..200u8).collect();
    let mut s = ByteStream::new(data.clone());
    let small = read(&mut s, 3).unwrap();
    assert_eq!(small.to_vec(), vec![0, 1, 2]);
    let large = read(&mut s, 150).unwrap();
    assert_eq!(large.to_vec(), data[3..153].to_vec());
    assert_eq!(s.pos, 153);
    let empty = read(&mut s, 0).unwrap();
    assert_eq!(empty.to_vec(), Vec::<u8>::new());
    assert!(matches!(read(&mut s, 48), Err(IoErrorKind::UnexpectedEof)));
    assert_eq!(s.pos, 200);
}

#[test]
fn chunked_copy_appends_the_bytes() {
    let mut src = ByteStream::new(vec![1, 2, 3, 4, 5, 6]);
    let mut dst = ByteStream::new(vec![9]);
    assert_eq!(dst.seek(SeekFrom::End(0)), Ok(1));
    assert_eq!(src.seek(SeekFrom::Start(1)), Ok(1));
    assert_eq!(chunked_copy(&mut src, &mut dst, 4), Ok(()));
    assert_eq!(dst.data, vec![9, 2, 3, 4, 5]);
    assert_eq!(src.pos, 5);
    assert_eq!(dst.pos, 5);
    assert_eq!(chunked_copy(&mut src, &mut dst, 0), Ok(()));
    assert_eq!(dst.data, vec![9, 2, 3, 4, 5]);
}

#[test]
fn chunked_copy_over_several_chunks() {
    let len = 2 * CHUNK_SIZE + 17;
    let data: Vec<u8> = (0..len).map(|i| (i % 251) as u8).collect();
    let mut src = ByteStream::new(data.clone());
    let mut dst = ByteStream::new(Vec::new());
    assert_eq!(chunked_copy(&mut src, &mut dst, len), Ok(()));
    assert_eq!(dst.data, data);
    assert_eq!(src.pos, len as u64);
}

#[test]
fn chunked_copy_of_a_short_source() {
    let mut src = ByteStream::new(vec![1, 2, 3]);
    let mut dst = ByteStream::new(Vec::new());
    assert_eq!(chunked_copy(&mut src, &mut dst, 5), Err(IoErrorKind::UnexpectedEof));
    assert_eq!(dst.data, vec![1, 2, 3]);
    assert_eq!(src.pos, 3);
    let mut dry = ByteStream::new(Vec::new());
    assert_eq!(chunked_copy(&mut dry, &mut dst, 1), Err(IoErrorKind::UnexpectedEof));
    assert_eq!(dst.data, vec![1, 2, 3]);
}

#[test]
fn chunked_copy_to_a_target_past_its_end() {
    let mut src = ByteStream::new(vec![1, 2, 3]);
    let mut dst = ByteStream::new(vec![0]);
    assert_eq!(dst.seek(SeekFrom::Start(2)), Ok(2));
    assert_eq!(chunked_copy(&mut src, &mut dst, 2), Err(IoErrorKind::InvalidInput));
    assert_eq!(dst.data, vec![0]);
    assert_eq!(dst.pos, 2);
    assert_eq!(src.pos, 2);
}

#[test]
fn parse_fixed_hands_the_bytes_to_the_decoder() {
    let mut s = ByteStream::new(vec![0, 0, 1, 2, 9]);
    let n = parse_fixed::<u32, 4, ByteStream, _>(&mut s, |b: [u8; 4]| Ok(u32::from_be_bytes(b)));
    assert_eq!(n, Ok(258));
    assert_eq!(s.pos, 4);
    let mut called = false;
    let r = parse_fixed::<u32, 4, ByteStream, _>(&mut s, |_b: [u8; 4]| {
        called = true;
        Ok(0)
    });
    assert_eq!(r, Err(RepackerError::Io(IoErrorKind::UnexpectedEof)));
    assert!(!called);
    let mut t = ByteStream::new(vec![7]);
    let refused = parse_fixed::<u8, 1, ByteStream, _>(&mut t, |b: [u8; 1]| {
        Err(RepackerError::from(RepackerValueError::DirLenNotZero(b[0] as u64)))
    });
    assert_eq!(refused, Err(RepackerError::Value(RepackerValueError::DirLenNotZero(7))));
}

#[test]
fn parse_hands_the_bytes_to_the_decoder() {
    let mut s = ByteStream::new(vec![1, 2, 3, 4, 5]);
    let sum = parse::<u32, ByteStream, _>(&mut s, 3, |b: &[u8]| {
        Ok(b.iter().map(|x| *x as u32).sum())
    });
    assert_eq!(sum, Ok(6));
    assert_eq!(s.pos, 3);
    let r = parse::<usize, ByteStream, _>(&mut s, 3, |b: &[u8]| Ok(b.len()));
    assert_eq!(r, Err(RepackerError::Io(IoErrorKind::UnexpectedEof)));
    let mut t = ByteStream::new(vec![1]);
    assert_eq!(parse::<usize, ByteStream, _>(&mut t, 0, |b: &[u8]| Ok(b.len())), Ok(0));
}
