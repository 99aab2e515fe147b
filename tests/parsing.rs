use proc_mounts::{
    decode_value, EscapeError, Field, MountList, NumberError, ParseError, SwapList,
};

#[test]
fn plain_field_decodes_to_itself() {
    let field: Vec<u8> = (0x20u8..=0x7e).filter(|b| *b != b'\\').collect();
    assert_eq!(decode_value(&field), Ok(field.clone()));
    assert_eq!(decode_value(b""), Ok(Vec::new()));
}

#[test]
fn every_byte_has_an_octal_escape() {
    for b in 0u16..=255 {
        let text = format!("\\{:03o}", b);
        assert_eq!(decode_value(text.as_bytes()), Ok(vec![b as u8]));
    }
}

#[test]
fn escapes_inside_a_path() {
    assert_eq!(
        decode_value(b"/mnt/my\\040disk\\011x\\134y"),
        Ok(b"/mnt/my disk\tx\\y".to_vec())
    );
    assert_eq!(decode_value(b"\\777"), Ok(vec![0xff]));
}

#[test]
fn truncated_escapes_fail() {
    assert_eq!(decode_value(b"\\"), Err(EscapeError::Truncated));
    assert_eq!(decode_value(b"ab\\0"), Err(EscapeError::Truncated));
    assert_eq!(decode_value(b"ab\\01"), Err(EscapeError::Truncated));
}

#[test]
fn non_octal_escapes_fail() {
    assert_eq!(decode_value(b"\\8"), Err(EscapeError::NotOctal));
    assert_eq!(decode_value(b"\\018"), Err(EscapeError::NotOctal));
    assert_eq!(decode_value(b"\\0a1"), Err(EscapeError::NotOctal));
}

#[test]
fn mount_path_fields_are_decoded() {
    let lines = ["/dev/sdb1 /media/my\\040stick vfat rw 0 2"];
    let mounts = MountList::parse_from(&lines).unwrap();
    let m = &mounts.entries()[0];
    assert_eq!(m.dest, b"/media/my stick".to_vec());
    assert_eq!(m.pass, 2);
    assert_eq!(mounts.get_mount_by_dest(b"/media/my stick").unwrap().source, b"/dev/sdb1".to_vec());
}

#[test]
fn short_mount_lines_miss_a_field() {
    let cases: [(&str, Field); 5] = [
        ("a", Field::Dest),
        ("a b", Field::FsType),
        ("a b c", Field::Options),
        ("a b c d", Field::Dump),
        ("a b c d 0", Field::Pass),
    ];
    for (line, field) in cases.iter() {
        assert_eq!(MountList::parse_from(&[*line]), Err(ParseError::MissingField(*field)));
    }
}

#[test]
fn mount_fields_split_on_single_spaces() {
    assert_eq!(
        MountList::parse_from(&["a  b c d 0 0"]),
        Err(ParseError::TooManyFields(7))
    );
}

#[test]
fn bad_mount_numbers_are_invalid() {
    assert_eq!(
        MountList::parse_from(&["a b c d x"]),
        Err(ParseError::MissingField(Field::Pass))
    );
    assert_eq!(
        MountList::parse_from(&["a b c d 0 2147483648"]),
        Err(ParseError::InvalidField(Field::Pass, NumberError::OutOfRange))
    );
    let mounts = MountList::parse_from(&["a b c d -2147483648 +7"]).unwrap();
    assert_eq!(mounts.entries()[0].dump, i32::MIN);
    assert_eq!(mounts.entries()[0].pass, 7);
}

#[test]
fn bad_mount_escape_fails_after_numbers() {
    assert_eq!(
        MountList::parse_from(&["a\\9 b c d 0 0"]),
        Err(ParseError::MalformedEscape(EscapeError::NotOctal))
    );
    assert_eq!(
        MountList::parse_from(&["a\\9 b c d 0 x"]),
        Err(ParseError::InvalidField(Field::Pass, NumberError::Malformed))
    );
}

#[test]
fn first_failing_line_aborts_the_table() {
    let lines = ["a b c d 0 0", "a b c", "a b c d x"];
    assert_eq!(MountList::parse_from(&lines), Err(ParseError::MissingField(Field::Options)));
}

#[test]
fn lookups_return_the_first_match() {
    let lines = ["first /x t o 0 0", "second /x t o 1 0", "first /y t o 2 0"];
    let mounts = MountList::parse_from(&lines).unwrap();
    assert_eq!(mounts.get_mount_by_dest(b"/x").unwrap().source, b"first".to_vec());
    assert_eq!(mounts.get_mount_by_source(b"first").unwrap().dest, b"/x".to_vec());
    assert_eq!(mounts.get_mount_by_source(b"second").unwrap().dump, 1);
    assert!(mounts.get_mount_by_dest(b"/z").is_none());
    assert!(mounts.get_mount_by_source(b"third").is_none());
}

#[test]
fn prefix_queries_are_byte_level() {
    let lines = ["d1 /mnt t o 0 0", "d2 /mnt2 t o 0 0", "e3 /srv t o 0 0"];
    let mounts = MountList::parse_from(&lines).unwrap();
    let dests: Vec<Vec<u8>> =
        mounts.destination_starts_with(b"/mnt").iter().map(|m| m.dest.clone()).collect();
    assert_eq!(dests, vec![b"/mnt".to_vec(), b"/mnt2".to_vec()]);
    let sources: Vec<Vec<u8>> =
        mounts.source_starts_with(b"d").iter().map(|m| m.source.clone()).collect();
    assert_eq!(sources, vec![b"d1".to_vec(), b"d2".to_vec()]);
    assert!(mounts.source_starts_with(b"d1x").is_empty());
}

#[test]
fn parsing_twice_gives_equal_tables() {
    let lines = ["a /b c d,e 0 1", "f /g h i 1 0"];
    assert_eq!(MountList::parse_from(&lines), MountList::parse_from(&lines));
    let swaps = ["/swapfile file 100 5 -1"];
    assert_eq!(SwapList::parse_from(&swaps), SwapList::parse_from(&swaps));
}

#[test]
fn mount_snapshot_text_is_split_into_lines() {
    let text = "a /b c d 0 0\r\ne /f g h 1 1\n";
    let mounts = MountList::new(text).unwrap();
    assert_eq!(mounts.entries().len(), 2);
    assert_eq!(mounts.entries()[0].pass, 0);
    assert_eq!(mounts.entries()[1].source, b"e".to_vec());
    assert_eq!(MountList::new("").unwrap().entries().len(), 0);
}

#[test]
fn swap_snapshot_skips_the_header() {
    let text = "Filename\tType\tSize\tUsed\tPriority\n/dev/sda5 partition 8388600 0 -2\n";
    let swaps = SwapList::new(text).unwrap();
    assert_eq!(swaps.entries().len(), 1);
    assert!(swaps.get_swapped(b"/dev/sda5"));
    assert!(!swaps.get_swapped(b"/dev/sda1"));
    assert_eq!(SwapList::new("Filename Type Size Used Priority").unwrap().entries().len(), 0);
}

#[test]
fn short_swap_lines_miss_a_field() {
    let cases: [(&str, Field); 5] = [
        ("", Field::Source),
        ("  /dev/sda5", Field::Kind),
        ("/dev/sda5 partition", Field::Size),
        ("/dev/sda5\tpartition 10", Field::Used),
        ("/dev/sda5 partition 10 0  ", Field::Priority),
    ];
    for (line, field) in cases.iter() {
        assert_eq!(SwapList::parse_from(&[*line]), Err(ParseError::MissingField(*field)));
    }
}

#[test]
fn swap_field_errors() {
    assert_eq!(
        SwapList::parse_from(&["/dev/sda5 partition -1 0 0"]),
        Err(ParseError::InvalidField(Field::Size, NumberError::Malformed))
    );
    assert_eq!(
        SwapList::parse_from(&["/dev/sda5 partition 1 x 0"]),
        Err(ParseError::InvalidField(Field::Used, NumberError::Malformed))
    );
    assert_eq!(
        SwapList::parse_from(&["/dev/sda5 partition 1 0 99999999999999999999"]),
        Err(ParseError::InvalidField(Field::Priority, NumberError::OutOfRange))
    );
    assert_eq!(
        SwapList::parse_from(&["/dev/sda5 partition \\377 0 0"]),
        Err(ParseError::NonTextData)
    );
    assert_eq!(
        SwapList::parse_from(&["/dev/sda\\9 partition 1 0 0"]),
        Err(ParseError::MalformedEscape(EscapeError::NotOctal))
    );
    assert_eq!(
        SwapList::parse_from(&["/dev/sda\\5"]),
        Err(ParseError::MissingField(Field::Kind))
    );
}

#[test]
fn swap_fields_are_decoded() {
    let swaps = SwapList::parse_from(&["/swap\\040file file \\061\\062 3 +4"]).unwrap();
    let s = &swaps.entries()[0];
    assert_eq!(s.source, b"/swap file".to_vec());
    assert_eq!(s.kind, b"file".to_vec());
    assert_eq!(s.size, 12);
    assert_eq!(s.used, 3);
    assert_eq!(s.priority, 4);
}

#[test]
fn swap_fields_split_on_unicode_whitespace() {
    let swaps =
        SwapList::parse_from(&["/dev/é\u{a0}partition\u{3000}7\u{2003}\u{85}0 \u{205f}-1\u{2029}"])
            .unwrap();
    let s = &swaps.entries()[0];
    assert_eq!(s.source, "/dev/é".as_bytes().to_vec());
    assert_eq!(s.kind, b"partition".to_vec());
    assert_eq!(s.size, 7);
    assert_eq!(s.used, 0);
    assert_eq!(s.priority, -1);
    assert_eq!(
        SwapList::parse_from(&["/dev/sda5\u{1680}file\u{202f}1\u{2028}2"]),
        Err(ParseError::MissingField(Field::Priority))
    );
}

#[test]
fn mount_lines_with_extra_fields_fail() {
    assert_eq!(
        MountList::parse_from(&["a b c d -2147483648 +7 extra"]),
        Err(ParseError::TooManyFields(7))
    );
    assert_eq!(MountList::parse_from(&["a b c d 0 0 "]), Err(ParseError::TooManyFields(7)));
    assert_eq!(
        MountList::parse_from(&["a b c d 0 x extra"]),
        Err(ParseError::TooManyFields(7))
    );
    assert_eq!(MountList::new("a b c d 0 0 e\\9 f\n"), Err(ParseError::TooManyFields(8)));
}

#[test]
fn swap_lines_with_extra_fields_fail() {
    assert_eq!(SwapList::parse_from(&["a b 1 2 3 x"]), Err(ParseError::TooManyFields(6)));
    assert_eq!(SwapList::parse_from(&["a b 1 2 3   "]).unwrap().entries().len(), 1);
    assert_eq!(
        SwapList::parse_from(&["a b 1 2 z x"]),
        Err(ParseError::TooManyFields(6))
    );
    assert_eq!(
        SwapList::new("Filename Type Size Used Priority\n/dev/sda5 partition 1 0 -2 extra\n"),
        Err(ParseError::TooManyFields(6))
    );
}

#[test]
fn short_lines_report_the_missing_field_first() {
    assert_eq!(MountList::parse_from(&["a\\9 b c x"]), Err(ParseError::MissingField(Field::Dump)));
    assert_eq!(SwapList::parse_from(&["a\\9 b"]), Err(ParseError::MissingField(Field::Size)));
    assert_eq!(SwapList::parse_from(&["a b 1x"]), Err(ParseError::MissingField(Field::Used)));
    assert_eq!(
        SwapList::parse_from(&["a b 1x 0 0"]),
        Err(ParseError::InvalidField(Field::Size, NumberError::Malformed))
    );
}
