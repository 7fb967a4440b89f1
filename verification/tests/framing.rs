use soft::common::{
    bytes_to_u64, read_line, read_size, recv_file, recv_list_file, send_file, send_list_file,
    u64_as_bytes, write_line,
};

#[test]
fn size_is_big_endian() {
    assert_eq!(u64_as_bytes(0), [0, 0, 0, 0, 0, 0, 0, 0]);
    assert_eq!(u64_as_bytes(1), [0, 0, 0, 0, 0, 0, 0, 1]);
    assert_eq!(u64_as_bytes(5000), [0, 0, 0, 0, 0, 0, 0x13, 0x88]);
    assert_eq!(
        u64_as_bytes(0x0102_0304_0506_0708),
        [1, 2, 3, 4, 5, 6, 7, 8]
    );
    assert_eq!(u64_as_bytes(u64::MAX), [255; 8]);
    assert_eq!(bytes_to_u64([0, 0, 0, 0, 0, 0, 0x13, 0x88]), 5000);
    assert_eq!(
        bytes_to_u64([1, 2, 3, 4, 5, 6, 7, 8]),
        0x0102_0304_0506_0708
    );
    assert_eq!(bytes_to_u64([255; 8]), u64::MAX);
}

#[test]
fn size_round_trip() {
    for n in [0u64, 1, 255, 256, 65535, 65536, 1 << 32, (1 << 56) + 17, u64::MAX - 1] {
        assert_eq!(bytes_to_u64(u64_as_bytes(n)), n);
    }
}

#[test]
fn read_size_needs_eight_bytes() {
    assert_eq!(read_size(&[]), None);
    assert_eq!(read_size(&[0, 0, 0, 0, 0, 0, 1]), None);
    assert_eq!(read_size(&[0, 0, 0, 0, 0, 0, 1, 2]), Some(258));
    assert_eq!(read_size(&[0, 0, 0, 0, 0, 0, 1, 2, 99]), Some(258));
}

#[test]
fn file_frame_is_length_then_bytes() {
    assert_eq!(send_file(b""), vec![0, 0, 0, 0, 0, 0, 0, 0]);
    assert_eq!(
        send_file(b"abc"),
        vec![0, 0, 0, 0, 0, 0, 0, 3, b'a', b'b', b'c']
    );
}

#[test]
fn file_round_trip_with_more_behind() {
    let data: Vec<u8> = (0..5000u32).map(|i| (i % 251) as u8).collect();
    let mut wire = send_file(&data);
    assert_eq!(wire.len(), 5008);
    wire.extend_from_slice(b"PRESENCE\n");
    let (back, used) = recv_file(&wire).unwrap();
    assert_eq!(used, 5008);
    assert_eq!(back, data);
}

#[test]
fn file_that_is_not_all_there_is_not_received() {
    let wire = send_file(b"hello");
    for n in 0..wire.len() {
        assert_eq!(recv_file(&wire[..n]), None);
    }
    assert_eq!(recv_file(&wire), Some((b"hello".to_vec(), 13)));
    // A length that is larger than what follows.
    assert_eq!(recv_file(&[0, 0, 0, 0, 0, 0, 0, 9, 1, 2, 3]), None);
    assert_eq!(recv_file(&[255, 255, 255, 255, 255, 255, 255, 255, 1]), None);
}

#[test]
fn line_stops_at_the_newline() {
    assert_eq!(read_line(b""), None);
    assert_eq!(read_line(b"EXIT"), None);
    assert_eq!(read_line(b"EXIT\n"), Some(("EXIT".to_string(), 5)));
    assert_eq!(read_line(b"\n"), Some((String::new(), 1)));
    assert_eq!(
        read_line(b"GET /a\nPUT /b\n"),
        Some(("GET /a".to_string(), 7))
    );
    // No carriage return is taken off.
    assert_eq!(read_line(b"CWD\r\n"), Some(("CWD\r".to_string(), 5)));
}

#[test]
fn line_takes_each_byte_as_one_character() {
    assert_eq!(
        read_line(&[0xe9, 0x41, 10]),
        Some(("\u{e9}A".to_string(), 3))
    );
}

#[test]
fn line_frame_is_text_then_newline() {
    assert_eq!(write_line("CWD"), b"CWD\n".to_vec());
    assert_eq!(write_line(""), b"\n".to_vec());
    assert_eq!(read_line(&write_line("/a/b")), Some(("/a/b".to_string(), 5)));
}

#[test]
fn list_frame_is_count_then_lines() {
    let list = vec!["/a.txt".to_string(), "/b/".to_string()];
    let wire = send_list_file(&list);
    let mut expected = vec![0, 0, 0, 0, 0, 0, 0, 2];
    expected.extend_from_slice(b"/a.txt\n/b/\n");
    assert_eq!(wire, expected);
    assert_eq!(recv_list_file(&wire), Some((list, 19)));
}

#[test]
fn empty_list_round_trip() {
    let wire = send_list_file(&Vec::new());
    assert_eq!(wire, vec![0; 8]);
    assert_eq!(recv_list_file(&wire), Some((Vec::new(), 8)));
}

#[test]
fn list_that_is_not_all_there_is_not_received() {
    let list = vec!["one".to_string(), "two".to_string(), "three".to_string()];
    let mut wire = send_list_file(&list);
    for n in 0..wire.len() {
        assert_eq!(recv_list_file(&wire[..n]), None);
    }
    wire.extend_from_slice(b"more");
    assert_eq!(recv_list_file(&wire), Some((list, 8 + 4 + 4 + 6)));
    // A count that is larger than the lines that follow.
    assert_eq!(recv_list_file(b"\0\0\0\0\0\0\0\x02one\n"), None);
}
