use soft::sync::{
    build_cache, cache_file, hash_path, parse_number, read_cache, write_decimal,
    write_hexadecimal, SyncCacher,
};

#[test]
fn numbers_in_decimal_digits() {
    assert_eq!(write_decimal(0), "0");
    assert_eq!(write_decimal(7), "7");
    assert_eq!(write_decimal(10), "10");
    assert_eq!(write_decimal(5000), "5000");
    assert_eq!(write_decimal(1_000_000_007), "1000000007");
    assert_eq!(write_decimal(u64::MAX), "18446744073709551615");
    for n in [0u64, 9, 99, 100, 12345678901234567890, u64::MAX] {
        assert_eq!(write_decimal(n), format!("{}", n));
        assert_eq!(parse_number(&write_decimal(n)), Some(n));
    }
}

#[test]
fn numbers_in_hexadecimal_digits() {
    assert_eq!(write_hexadecimal(0), "0");
    assert_eq!(write_hexadecimal(10), "a");
    assert_eq!(write_hexadecimal(255), "ff");
    assert_eq!(write_hexadecimal(0xdead_beef), "deadbeef");
    assert_eq!(write_hexadecimal(u64::MAX), "ffffffffffffffff");
    for n in [1u64, 15, 16, 4096, 0x0123_4567_89ab_cdef] {
        assert_eq!(write_hexadecimal(n), format!("{:x}", n));
        assert_eq!(hash_path(n), format!("{:x}", n));
    }
}

#[test]
fn numbers_are_read_as_the_standard_library_reads_them() {
    for text in [
        "0",
        "7",
        "+7",
        "007",
        "+0",
        "18446744073709551615",
        "18446744073709551616",
        "99999999999999999999999",
        "+18446744073709551615",
        "",
        "+",
        "-",
        "-0",
        "-1",
        "++1",
        "1+",
        "1 ",
        " 1",
        "1_000",
        "0x10",
        "12a",
        "a12",
        "1.5",
        "\u{663}",
    ] {
        assert_eq!(parse_number(text), text.parse::<u64>().ok(), "{:?}", text);
    }
    assert_eq!(parse_number("5000"), Some(5000));
    assert_eq!(parse_number("18446744073709551616"), None);
}

#[test]
fn record_of_a_file() {
    assert_eq!(cache_file("/a/./b/../c", "/home", 12), "/a/c 12");
    assert_eq!(cache_file("notes.txt", "/home/me", 0), "/home/me/notes.txt 0");
    assert_eq!(cache_file(".", "/home/me", 86400), "/home/me 86400");
}

#[test]
fn cache_of_a_directory_has_a_line_for_each_record() {
    let records = vec!["/d 5".to_string(), "/d/a 7".to_string(), "/d/b 0".to_string()];
    assert_eq!(build_cache(&records, true), "/d 5\n/d/a 7\n/d/b 0\n");
    assert_eq!(build_cache(&Vec::new(), true), "");
    assert_eq!(
        read_cache("/d 5\n/d/a 7\n/d/b 0\n"),
        Some(vec![
            ("/d".to_string(), 5),
            ("/d/a".to_string(), 7),
            ("/d/b".to_string(), 0)
        ])
    );
}

#[test]
fn cache_of_a_file_is_its_record() {
    let records = vec!["/f 5".to_string()];
    assert_eq!(build_cache(&records, false), "/f 5");
    assert_eq!(read_cache("/f 5"), Some(vec![("/f".to_string(), 5)]));
}

#[test]
fn read_cache_passes_over_other_lines() {
    assert_eq!(read_cache(""), Some(Vec::new()));
    assert_eq!(
        read_cache("\n\n/a 1\nalone\n/b\t2 \n one two three\n\n"),
        Some(vec![("/a".to_string(), 1), ("/b".to_string(), 2)])
    );
    assert_eq!(read_cache("/a 1\n/b two\n"), None);
    assert_eq!(read_cache("/a -1\n"), None);
    assert_eq!(read_cache("/a 18446744073709551616\n"), None);
}

#[test]
fn cacher_names_its_files_by_the_hash() {
    let cacher = SyncCacher::new("/home/me/.cache/soft/example");
    assert_eq!(cacher.cache_path(0xab12), "/home/me/.cache/soft/example/ab12");
    assert_eq!(cacher.cache_path(0), "/home/me/.cache/soft/example/0");
    let records = vec!["/d 5".to_string()];
    assert_eq!(cacher.build_cache(&records, true), "/d 5\n");
    assert_eq!(cacher.query_cache("/d 5\n"), Some(vec![("/d".to_string(), 5)]));
}
