use laby2_repack::io::{ByteRead, ByteSeek, ByteStream, ByteWrite, SeekFrom};
use laby2_repack::xor::{key_at, xor_encode, xor_in_place, XorReadable, XorWritable};

#[test]
fn key_is_the_low_byte_of_the_position() {
    assert_eq!(key_at(0, 0), 0);
    assert_eq!(key_at(0, 5), 5);
    assert_eq!(key_at(250, 5), 255);
    assert_eq!(key_at(250, 6), 0);
    assert_eq!(key_at(0x1_0000_0001, 1), 2);
    assert_eq!(key_at(u64::MAX, 1), 0);
    assert_eq!(key_at(u64::MAX, 2), 1);
}

#[test]
fn encode_xors_each_byte_with_its_position() {
    assert_eq!(xor_encode(&[0, 0, 0, 0], 0), vec![0, 1, 2, 3]);
    assert_eq!(xor_encode(&[0xFF, 0xFF], 254), vec![0x01, 0x00]);
    assert_eq!(xor_encode(b"AAFC", 0), vec![0x41, 0x40, 0x44, 0x40]);
    assert_eq!(xor_encode(&[], 77), Vec::<u8>::new());
}

#[test]
fn in_place_leaves_the_rest_of_the_buffer() {
    let mut buf = [9u8, 9, 9, 9, 9];
    xor_in_place(&mut buf, 3, 16);
    assert_eq!(buf, [9 ^ 16, 9 ^ 17, 9 ^ 18, 9, 9]);
    let mut none = [1u8, 2];
    xor_in_place(&mut none, 0, 3);
    assert_eq!(none, [1, 2]);
    let mut short = [0u8, 0];
    xor_in_place(&mut short, 5, 7);
    assert_eq!(short, [7, 8]);
}

#[test]
fn filter_is_its_own_inverse() {
    let data: Vec<u8> = (0..600u32).map(|i| (i * 7 + 3) as u8).collect();
    for pos in [0u64, 1, 255, 256, 1000, u64::MAX - 100, u64::MAX] {
        for len in [0usize, 1, 2, 255, 256, 600] {
            let coded = xor_encode(&data[..len], pos);
            let mut back = coded.clone();
            xor_in_place(&mut back, len, pos);
            assert_eq!(&back[..], &data[..len]);
            assert_eq!(xor_encode(&coded, pos), data[..len].to_vec());
        }
    }
}

#[test]
fn writer_and_reader_agree_across_a_seek() {
    let mut w = ByteStream::new(Vec::new()).xor_write();
    assert_eq!(w.write(b"hello world"), Ok(11));
    assert_eq!(w.flush(), Ok(()));
    assert_eq!(w.stream_position(), Ok(11));
    let stored = w.inner.into_inner();
    assert_ne!(stored, b"hello world".to_vec());
    assert_eq!(stored, xor_encode(b"hello world", 0));

    let mut r = ByteStream::new(stored).xor_read();
    assert_eq!(r.seek(SeekFrom::Start(6)), Ok(6));
    let mut buf = [0u8; 5];
    assert_eq!(r.read(&mut buf), Ok(5));
    assert_eq!(&buf, b"world");
    assert_eq!(r.seek(SeekFrom::Start(0)), Ok(0));
    let mut all = [0u8; 16];
    assert_eq!(r.read(&mut all), Ok(11));
    assert_eq!(&all[..11], b"hello world");
    assert_eq!(&all[11..], &[0u8; 5]);
}

#[test]
fn writer_keys_by_position_not_by_call() {
    let mut w = ByteStream::new(Vec::new()).xor_write();
    assert_eq!(w.write(&[0, 0, 0]), Ok(3));
    assert_eq!(w.write(&[0, 0]), Ok(2));
    assert_eq!(w.seek(SeekFrom::Start(1)), Ok(1));
    assert_eq!(w.write(&[0xFF]), Ok(1));
    assert_eq!(w.inner.into_inner(), vec![0, 0xFE, 2, 3, 4]);
}
