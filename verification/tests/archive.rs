use tz::archive::{
    deserialize_archive, is_archive, pack, read_entries, serialize_archive, unpack, ArchiveEntry,
    Unpacked, ARCHIVE_HEADER,
};
use tz::compression::compress;
use tz::decompression::decompress_binary;

fn directory(path: &str) -> ArchiveEntry {
    ArchiveEntry {
        relative_path: path.as_bytes().to_vec(),
        is_directory: true,
        size: 0,
        content: Vec::new(),
    }
}

fn file(path: &str, content: &[u8]) -> ArchiveEntry {
    ArchiveEntry {
        relative_path: path.as_bytes().to_vec(),
        is_directory: false,
        size: content.len(),
        content: content.to_vec(),
    }
}

fn archive(text: &[u8]) -> Vec<u8> {
    let mut data = b"TZ_DIR_ARCHIVE:\n".to_vec();
    data.extend_from_slice(text);
    data
}

#[test]
fn header_is_the_documented_literal() {
    assert_eq!(&ARCHIVE_HEADER[..], b"TZ_DIR_ARCHIVE:\n");
}

#[test]
fn empty_tree_is_the_header_alone() {
    assert_eq!(serialize_archive(&Vec::new()), b"TZ_DIR_ARCHIVE:\n".to_vec());
}

#[test]
fn serialize_writes_the_documented_layout() {
    let entries = vec![directory(""), directory("sub"), file("f.txt", b"ab")];
    assert_eq!(
        serialize_archive(&entries),
        b"TZ_DIR_ARCHIVE:\n:0\nsub:0\nf.txt:2\nab\n".to_vec()
    );
}

#[test]
fn serialize_writes_directories_before_files() {
    let entries = vec![
        directory(""),
        file("a.txt", b"x"),
        directory("d"),
        file("d/b.txt", b"yy"),
        directory("e"),
    ];
    assert_eq!(
        serialize_archive(&entries),
        b"TZ_DIR_ARCHIVE:\n:0\nd:0\ne:0\na.txt:1\nx\nd/b.txt:2\nyy\n".to_vec()
    );
}

#[test]
fn serialize_writes_the_length_of_the_content_as_size() {
    let mut entry = file("big", &[7u8; 1234]);
    entry.size = 5;
    let out = serialize_archive(&vec![entry]);
    let mut expected = b"TZ_DIR_ARCHIVE:\nbig:1234\n".to_vec();
    expected.extend_from_slice(&[7u8; 1234]);
    expected.push(b'\n');
    assert_eq!(out, expected);
}

#[test]
fn serialize_writes_an_empty_file_with_size_zero() {
    assert_eq!(
        serialize_archive(&vec![file("empty", b"")]),
        b"TZ_DIR_ARCHIVE:\nempty:0\n\n".to_vec()
    );
}

#[test]
fn is_archive_looks_for_the_header() {
    assert!(is_archive(b"TZ_DIR_ARCHIVE:\n"));
    assert!(is_archive(b"TZ_DIR_ARCHIVE:\nsub:0\n"));
    assert!(!is_archive(b""));
    assert!(!is_archive(b"TZ_DIR_ARCHIVE:"));
    assert!(!is_archive(b"TZ_DIR_ARCHIVE:sub:0\n"));
    assert!(!is_archive(b"tz_dir_archive:\nsub:0\n"));
    assert!(!is_archive(b" TZ_DIR_ARCHIVE:\n"));
    assert!(!is_archive(b"plain text, longer than the header"));
}

#[test]
fn deserialize_refuses_what_is_no_archive() {
    assert_eq!(deserialize_archive(b"hello"), None);
    assert_eq!(deserialize_archive(b""), None);
    assert_eq!(deserialize_archive(b"TZ_DIR_ARCHIVE:"), None);
}

#[test]
fn deserialize_of_the_header_alone_is_no_entry() {
    assert_eq!(deserialize_archive(b"TZ_DIR_ARCHIVE:\n"), Some(Vec::new()));
}

#[test]
fn directory_round_trip() {
    let entries = vec![directory(""), directory("empty_sub"), file("note.txt", b"ab")];
    let data = serialize_archive(&entries);
    let back = deserialize_archive(&data).unwrap();
    assert_eq!(back, entries);
}

#[test]
fn directory_round_trip_through_the_codec() {
    let entries = vec![directory(""), directory("empty_sub"), file("note.txt", b"ab")];
    let stream = pack(&entries);
    assert_eq!(stream, compress(serialize_archive(&entries)));
    assert_eq!(unpack(stream), Unpacked::Directory(entries));
}

#[test]
fn round_trip_gives_directories_first() {
    let entries = vec![
        directory(""),
        file("a.txt", b"x"),
        directory("d"),
        file("d/b with space.txt", b"  yy  "),
    ];
    let back = deserialize_archive(&serialize_archive(&entries)).unwrap();
    assert_eq!(
        back,
        vec![
            directory(""),
            directory("d"),
            file("a.txt", b"x"),
            file("d/b with space.txt", b"  yy  "),
        ]
    );
}

#[test]
fn round_trip_of_binary_content_without_line_feed() {
    let content: Vec<u8> = (0..=255u8).filter(|b| *b != 10).collect();
    let entries = vec![file("bin", &content)];
    let back = deserialize_archive(&serialize_archive(&entries)).unwrap();
    assert_eq!(back, entries);
}

#[test]
fn round_trip_of_a_large_tree_through_the_parallel_path() {
    let mut entries = vec![directory("")];
    for i in 0..40usize {
        entries.push(directory(&format!("d{}", i)));
    }
    for i in 0..40usize {
        let content: Vec<u8> = (0..500usize).map(|k| b'a' + ((k / 7 + i) % 26) as u8).collect();
        entries.push(file(&format!("d{}/f{}.txt", i, i), &content));
    }
    let stream = pack(&entries);
    assert!(decompress_binary(stream.clone()).unwrap().len() >= 10000);
    assert_eq!(unpack(stream), Unpacked::Directory(entries));
}

#[test]
fn content_with_a_line_feed_is_cut_at_it() {
    let entries = vec![file("f", b"one\ntwo")];
    let data = serialize_archive(&entries);
    assert_eq!(data, b"TZ_DIR_ARCHIVE:\nf:7\none\ntwo\n".to_vec());
    let back = deserialize_archive(&data).unwrap();
    assert_ne!(back, entries);
    assert_eq!(
        back,
        vec![ArchiveEntry {
            relative_path: b"f".to_vec(),
            is_directory: false,
            size: 7,
            content: b"one".to_vec(),
        }]
    );
}

#[test]
fn content_line_that_looks_like_an_entry_is_content() {
    let entries = vec![file("f", b"g:3"), file("h", b"zzz")];
    let back = deserialize_archive(&serialize_archive(&entries)).unwrap();
    assert_eq!(back, entries);
}

#[test]
fn content_behind_a_line_feed_is_read_as_lines() {
    let entries = vec![file("f", b"x\nsub:0")];
    let back = deserialize_archive(&serialize_archive(&entries)).unwrap();
    assert_eq!(
        back,
        vec![
            ArchiveEntry {
                relative_path: b"f".to_vec(),
                is_directory: false,
                size: 7,
                content: b"x".to_vec(),
            },
            directory("sub"),
        ]
    );
}

#[test]
fn empty_file_comes_back_as_a_directory() {
    let back = deserialize_archive(&serialize_archive(&vec![file("empty", b"")])).unwrap();
    assert_eq!(back, vec![directory("empty")]);
}

#[test]
fn path_with_a_colon_is_passed_over() {
    let back = deserialize_archive(&serialize_archive(&vec![directory("a:b")])).unwrap();
    assert_eq!(back, Vec::new());
}

#[test]
fn lines_without_exactly_one_colon_are_passed_over() {
    let data = archive(b"no colon here\na:b:0\n::\nok:0\n");
    assert_eq!(deserialize_archive(&data), Some(vec![directory("ok")]));
}

#[test]
fn blank_lines_are_passed_over() {
    let data = archive(b"\n\n   \n\t\na:0\n\n");
    assert_eq!(deserialize_archive(&data), Some(vec![directory("a")]));
}

#[test]
fn lines_are_trimmed_before_they_are_read() {
    let data = archive(b"  a:0  \n\tb:2\r\nxy\n");
    assert_eq!(
        deserialize_archive(&data),
        Some(vec![directory("a"), file("b", b"xy")])
    );
}

#[test]
fn content_line_is_not_trimmed() {
    let data = archive(b"f:4\n  xy\t\n");
    let back = deserialize_archive(&data).unwrap();
    assert_eq!(
        back,
        vec![ArchiveEntry {
            relative_path: b"f".to_vec(),
            is_directory: false,
            size: 4,
            content: b"  xy\t".to_vec(),
        }]
    );
}

#[test]
fn size_that_is_no_number_makes_a_directory() {
    let data = archive(b"a:xyz\nb:\nc:-1\nd: 3\ne:1.5\nf:+\ng:0x10\n");
    assert_eq!(
        deserialize_archive(&data),
        Some(vec![
            directory("a"),
            directory("b"),
            directory("c"),
            directory("d"),
            directory("e"),
            directory("f"),
            directory("g"),
        ])
    );
}

#[test]
fn size_may_carry_a_plus_sign_and_leading_zeros() {
    let data = archive(b"a:+2\nxy\nb:007\nabcdefg\n");
    assert_eq!(
        deserialize_archive(&data),
        Some(vec![
            ArchiveEntry {
                relative_path: b"a".to_vec(),
                is_directory: false,
                size: 2,
                content: b"xy".to_vec(),
            },
            ArchiveEntry {
                relative_path: b"b".to_vec(),
                is_directory: false,
                size: 7,
                content: b"abcdefg".to_vec(),
            },
        ])
    );
}

#[test]
fn size_too_large_for_the_machine_makes_a_directory() {
    let data = archive(b"a:99999999999999999999999999999999999999\nnext:0\n");
    assert_eq!(
        deserialize_archive(&data),
        Some(vec![directory("a"), directory("next")])
    );
}

#[test]
fn declared_size_is_kept_even_where_the_content_differs() {
    let data = archive(b"f:100\nshort\n");
    assert_eq!(
        deserialize_archive(&data),
        Some(vec![ArchiveEntry {
            relative_path: b"f".to_vec(),
            is_directory: false,
            size: 100,
            content: b"short".to_vec(),
        }])
    );
}

#[test]
fn file_line_without_a_next_line_makes_a_directory() {
    let data = archive(b"d:0\nf:5");
    assert_eq!(
        deserialize_archive(&data),
        Some(vec![directory("d"), directory("f")])
    );
}

#[test]
fn file_line_before_an_empty_last_line_takes_it_as_content() {
    let data = archive(b"f:5\n");
    assert_eq!(
        deserialize_archive(&data),
        Some(vec![ArchiveEntry {
            relative_path: b"f".to_vec(),
            is_directory: false,
            size: 5,
            content: Vec::new(),
        }])
    );
}

#[test]
fn path_bytes_need_not_be_text() {
    let mut data = archive(b"");
    data.extend_from_slice(&[0xff, 0xfe, b':', b'0', b'\n']);
    assert_eq!(
        deserialize_archive(&data),
        Some(vec![ArchiveEntry {
            relative_path: vec![0xff, 0xfe],
            is_directory: true,
            size: 0,
            content: Vec::new(),
        }])
    );
}

#[test]
fn read_entries_reads_lines_from_the_top() {
    let lines: Vec<&[u8]> = vec![b"a:0", b"b:3", b"c:0", b"d:0"];
    assert_eq!(
        read_entries(&lines),
        vec![directory("a"), file("b", b"c:0"), directory("d")]
    );
    assert_eq!(read_entries(&Vec::new()), Vec::new());
}

#[test]
fn unpack_of_a_plain_file_gives_its_bytes() {
    let stream = compress(b"hello world".to_vec());
    assert_eq!(unpack(stream), Unpacked::File(b"hello world".to_vec()));
}

#[test]
fn unpack_of_an_empty_stream_is_an_empty_file() {
    assert_eq!(unpack(Vec::new()), Unpacked::File(Vec::new()));
}

#[test]
fn unpack_of_a_header_without_line_feed_is_a_file() {
    let stream = compress(b"TZ_DIR_ARCHIVE:sub:0".to_vec());
    assert_eq!(unpack(stream), Unpacked::File(b"TZ_DIR_ARCHIVE:sub:0".to_vec()));
}

#[test]
fn pack_of_an_empty_tree_is_the_compressed_header() {
    let stream = pack(&Vec::new());
    assert_eq!(decompress_binary(stream.clone()).unwrap(), b"TZ_DIR_ARCHIVE:\n".to_vec());
    assert_eq!(unpack(stream), Unpacked::Directory(Vec::new()));
}

#[test]
fn lines_are_trimmed_of_unicode_white_space() {
    let data = archive("f:3\u{3000}\nabc\n\u{a0}d:0\u{2028}\n".as_bytes());
    assert_eq!(
        deserialize_archive(&data),
        Some(vec![file("f", b"abc"), directory("d")])
    );
}

#[test]
fn path_that_begins_with_unicode_white_space_loses_it() {
    let entries = vec![directory("\u{a0}d")];
    let back = deserialize_archive(&serialize_archive(&entries)).unwrap();
    assert_eq!(back, vec![directory("d")]);
}

#[test]
fn path_with_white_space_inside_or_behind_round_trips() {
    let entries = vec![directory("a\u{a0}b "), file("c\u{3000}", "\u{a0}x\u{a0}".as_bytes())];
    let back = deserialize_archive(&serialize_archive(&entries)).unwrap();
    assert_eq!(back, entries);
}
