use kvs::nibble::record::{
    copy_value, read_key, read_len, size_of_record, write_record, HEADER_SIZE, RECORD_ALIGN,
};

#[test]
fn record_sizes_round_up_to_alignment() {
    assert_eq!(HEADER_SIZE, 12);
    assert_eq!(RECORD_ALIGN, 8);
    assert_eq!(size_of_record(1), 16);
    assert_eq!(size_of_record(4), 16);
    assert_eq!(size_of_record(5), 24);
    assert_eq!(size_of_record(12), 24);
    assert_eq!(size_of_record(13), 32);
    assert_eq!(size_of_record(1024), 1040);
}

#[test]
fn record_bytes_are_key_length_value_padding() {
    let mut data = Vec::new();
    write_record(&mut data, 0x0807_0605_0403_0201, b"abcde");
    assert_eq!(
        data,
        vec![1, 2, 3, 4, 5, 6, 7, 8, 5, 0, 0, 0, b'a', b'b', b'c', b'd', b'e', 0, 0, 0, 0, 0, 0, 0]
    );
}

#[test]
fn record_reads_back() {
    let mut data = Vec::new();
    write_record(&mut data, 7, b"A");
    write_record(&mut data, 9, b"hello, world");
    assert_eq!(data.len(), 16 + 24);
    assert_eq!(read_key(&data, 0), 7);
    assert_eq!(read_len(&data, 0), 1);
    assert_eq!(read_key(&data, 16), 9);
    assert_eq!(read_len(&data, 16), 12);
    let mut out = [0xffu8; 16];
    copy_value(&data, 16, 12, &mut out);
    assert_eq!(&out[..12], b"hello, world");
    assert_eq!(&out[12..], &[0xff, 0xff, 0xff, 0xff]);
}
