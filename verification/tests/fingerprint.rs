use dhd::hashlist::{fingerprint, HashList, MalformedFingerprint};

fn values(list: &HashList) -> Vec<u32> {
    list.to_sequence().iter().map(|hash| hash.value()).collect()
}

#[test]
fn fingerprint_of_check_string() {
    assert_eq!(fingerprint(b"123456789").value(), 0xCBF4_3926);
}

#[test]
fn fingerprint_of_known_words() {
    assert_eq!(fingerprint(b"foo").value(), 0x8C73_6521);
    assert_eq!(fingerprint(b"bar").value(), 0x76FF_8CAA);
}

#[test]
fn fingerprint_of_empty_line_is_zero() {
    assert_eq!(fingerprint(b"").value(), 0);
}

#[test]
fn fingerprint_agrees_with_crc32() {
    for line in ["", "a", "foo", "hello world", "line with \u{e9} accent"] {
        assert_eq!(
            fingerprint(line.as_bytes()).value(),
            crc::crc32::checksum_ieee(line.as_bytes())
        );
    }
}

#[test]
fn fingerprint_is_repeatable() {
    let first = fingerprint(b"the same bytes");
    let second = fingerprint(b"the same bytes");
    assert_eq!(first, second);
    assert_ne!(first, fingerprint(b"other bytes"));
}

#[test]
fn signed_reading_keeps_the_bits() {
    assert_eq!(dhd::hashlist::Hash::new(0).to_signed(), 0);
    assert_eq!(dhd::hashlist::Hash::new(1).to_signed(), 1);
    assert_eq!(dhd::hashlist::Hash::new(0x7FFF_FFFF).to_signed(), i32::MAX);
    assert_eq!(dhd::hashlist::Hash::new(0x8000_0000).to_signed(), i32::MIN);
    assert_eq!(dhd::hashlist::Hash::new(0xFFFF_FFFF).to_signed(), -1);
    assert_eq!(dhd::hashlist::Hash::new(0xCBF4_3926).to_signed(), 0xCBF4_3926u32 as i32);
}

#[test]
fn unsigned_reading_keeps_the_bits() {
    assert_eq!(dhd::hashlist::Hash::from_signed(0).value(), 0);
    assert_eq!(dhd::hashlist::Hash::from_signed(i32::MAX).value(), 0x7FFF_FFFF);
    assert_eq!(dhd::hashlist::Hash::from_signed(i32::MIN).value(), 0x8000_0000);
    assert_eq!(dhd::hashlist::Hash::from_signed(-1).value(), 0xFFFF_FFFF);
}

#[test]
fn signed_round_trip() {
    for u in [0u32, 1, 2, 0x7FFF_FFFE, 0x7FFF_FFFF, 0x8000_0000, 0x8000_0001, 0xFFFF_FFFF, 0xCBF4_3926] {
        let hash = dhd::hashlist::Hash::new(u);
        assert_eq!(dhd::hashlist::Hash::from_signed(hash.to_signed()), hash);
    }
    for s in [0i32, 1, -1, i32::MIN, i32::MAX, -123_456] {
        assert_eq!(dhd::hashlist::Hash::from_signed(s).to_signed(), s);
    }
}

#[test]
fn canonical_string_of_a_fingerprint() {
    assert_eq!(dhd::hashlist::Hash::new(0).to_canonical_string(), "0");
    assert_eq!(dhd::hashlist::Hash::new(7).to_canonical_string(), "7");
    assert_eq!(dhd::hashlist::Hash::new(10).to_canonical_string(), "10");
    assert_eq!(dhd::hashlist::Hash::new(1_000_000).to_canonical_string(), "1000000");
    assert_eq!(dhd::hashlist::Hash::new(u32::MAX).to_canonical_string(), "4294967295");
    assert_eq!(dhd::hashlist::Hash::new(0x8000_0000).to_canonical_string(), "2147483648");
}

#[test]
fn canonical_string_agrees_with_display() {
    for u in [0u32, 9, 10, 99, 100, 101, 65_535, 65_536, 3_000_000_000, u32::MAX] {
        assert_eq!(dhd::hashlist::Hash::new(u).to_canonical_string(), u.to_string());
    }
}

#[test]
fn parse_accepts_decimal_literals() {
    let parse = dhd::hashlist::Hash::parse_canonical_string;
    assert_eq!(parse("0"), Ok(dhd::hashlist::Hash::new(0)));
    assert_eq!(parse("123"), Ok(dhd::hashlist::Hash::new(123)));
    assert_eq!(parse("007"), Ok(dhd::hashlist::Hash::new(7)));
    assert_eq!(parse("4294967295"), Ok(dhd::hashlist::Hash::new(u32::MAX)));
    assert_eq!(parse("0000000000000000000004294967295"), Ok(dhd::hashlist::Hash::new(u32::MAX)));
}

#[test]
fn parse_rejects_what_is_no_literal() {
    let parse = dhd::hashlist::Hash::parse_canonical_string;
    let malformed = Err(MalformedFingerprint { line: 0 });
    assert_eq!(parse(""), malformed);
    assert_eq!(parse("abc"), malformed);
    assert_eq!(parse("12a"), malformed);
    assert_eq!(parse("a12"), malformed);
    assert_eq!(parse("+5"), malformed);
    assert_eq!(parse("-1"), malformed);
    assert_eq!(parse(" 1"), malformed);
    assert_eq!(parse("1 "), malformed);
    assert_eq!(parse("1\n"), malformed);
    assert_eq!(parse("1.0"), malformed);
    assert_eq!(parse("\u{661}\u{662}"), malformed);
}

#[test]
fn parse_rejects_values_beyond_32_bits() {
    let parse = dhd::hashlist::Hash::parse_canonical_string;
    let malformed = Err(MalformedFingerprint { line: 0 });
    assert_eq!(parse("4294967296"), malformed);
    assert_eq!(parse("4294967300"), malformed);
    assert_eq!(parse("99999999999999999999999999"), malformed);
}

#[test]
fn parse_after_render_gives_the_value_back() {
    for u in [0u32, 1, 9, 10, 4_294_967_295, 2_147_483_648, 305_419_896] {
        let hash = dhd::hashlist::Hash::new(u);
        let text = hash.to_canonical_string();
        assert_eq!(dhd::hashlist::Hash::parse_canonical_string(&text), Ok(hash));
    }
}

#[test]
fn delimited_string_joins_with_newlines() {
    let list = HashList::new(vec![
        dhd::hashlist::Hash::new(1),
        dhd::hashlist::Hash::new(20),
        dhd::hashlist::Hash::new(4_294_967_295),
    ]);
    assert_eq!(list.to_delimited_string(), "1\n20\n4294967295");
}

#[test]
fn delimited_string_of_one_and_of_none() {
    assert_eq!(HashList::new(vec![dhd::hashlist::Hash::new(7)]).to_delimited_string(), "7");
    assert_eq!(HashList::new(vec![]).to_delimited_string(), "");
}

#[test]
fn delimited_string_renders_unsigned() {
    let list = HashList::from_signed(&vec![-1, i32::MIN, 5]);
    assert_eq!(list.to_delimited_string(), "4294967295\n2147483648\n5");
}

#[test]
fn length_and_sequence() {
    let list = HashList::new(vec![dhd::hashlist::Hash::new(3), dhd::hashlist::Hash::new(4)]);
    assert_eq!(list.len(), 2);
    assert_eq!(values(&list), vec![3, 4]);
    assert_eq!(HashList::new(vec![]).len(), 0);
}

#[test]
fn canonical_string_is_read_segment_by_segment() {
    let list = HashList::from_canonical_string("123\n456").unwrap();
    assert_eq!(values(&list), vec![123, 456]);
    let list = HashList::from_canonical_string("0").unwrap();
    assert_eq!(values(&list), vec![0]);
    let list = HashList::from_canonical_string("4294967295\n0\n007").unwrap();
    assert_eq!(values(&list), vec![4_294_967_295, 0, 7]);
}

#[test]
fn malformed_segment_fails_the_whole_string() {
    let parsed = HashList::from_canonical_string("123\nabc\n456");
    assert_eq!(parsed.err(), Some(MalformedFingerprint { line: 1 }));
}

#[test]
fn first_malformed_segment_is_reported() {
    let line = |text: &str| HashList::from_canonical_string(text).err().map(|e| e.line);
    assert_eq!(line("x\n1\n2"), Some(0));
    assert_eq!(line("1\n2\nx"), Some(2));
    assert_eq!(line("1\nx\ny"), Some(1));
    assert_eq!(line("1\n4294967296\n3"), Some(1));
    assert_eq!(line("1\n2\n3"), None);
}

#[test]
fn empty_segments_are_malformed() {
    let line = |text: &str| HashList::from_canonical_string(text).err().map(|e| e.line);
    assert_eq!(line(""), Some(0));
    assert_eq!(line("1\n"), Some(1));
    assert_eq!(line("\n1"), Some(0));
    assert_eq!(line("1\n\n2"), Some(1));
    assert_eq!(line("\n"), Some(0));
}

#[test]
fn canonical_round_trip() {
    for list in [vec![0u32], vec![1, 2, 3], vec![u32::MAX, 0, 10, 100], vec![5; 40]] {
        let hashes: Vec<dhd::hashlist::Hash> =
            list.iter().map(|u| dhd::hashlist::Hash::new(*u)).collect();
        let text = HashList::new(hashes).to_delimited_string();
        let back = HashList::from_canonical_string(&text).unwrap();
        assert_eq!(values(&back), list);
        assert_eq!(back.to_delimited_string(), text);
    }
}

#[test]
fn empty_list_does_not_round_trip() {
    let text = HashList::new(vec![]).to_delimited_string();
    assert_eq!(
        HashList::from_canonical_string(&text).err(),
        Some(MalformedFingerprint { line: 0 })
    );
}

#[test]
fn lines_are_fingerprinted_in_order() {
    let lines = vec!["foo".to_string(), "bar".to_string(), "baz".to_string()];
    let list = HashList::from_lines(&lines);
    assert_eq!(
        values(&list),
        vec![
            crc::crc32::checksum_ieee(b"foo"),
            crc::crc32::checksum_ieee(b"bar"),
            crc::crc32::checksum_ieee(b"baz"),
        ]
    );
    assert_eq!(values(&list)[0], 0x8C73_6521);
    assert_eq!(HashList::from_lines(&vec![]).len(), 0);
}

#[test]
fn text_is_split_at_newlines() {
    let list = HashList::from_text(b"foo\nbar\nbaz");
    assert_eq!(
        values(&list),
        vec![
            crc::crc32::checksum_ieee(b"foo"),
            crc::crc32::checksum_ieee(b"bar"),
            crc::crc32::checksum_ieee(b"baz"),
        ]
    );
}

#[test]
fn text_with_trailing_newline_has_an_empty_last_line() {
    let list = HashList::from_text(b"foo\n");
    assert_eq!(values(&list), vec![crc::crc32::checksum_ieee(b"foo"), 0]);
    assert_eq!(values(&HashList::from_text(b"")), vec![0]);
    assert_eq!(values(&HashList::from_text(b"\n\n")), vec![0, 0, 0]);
}

#[test]
fn text_agrees_with_split() {
    let text = "alpha\nbeta\n\ngamma delta\n\u{e9}t\u{e9}\n";
    let expected: Vec<u32> =
        text.split('\n').map(|line| crc::crc32::checksum_ieee(line.as_bytes())).collect();
    assert_eq!(values(&HashList::from_text(text.as_bytes())), expected);
}

#[test]
fn signed_lists() {
    let list = HashList::new(vec![
        dhd::hashlist::Hash::new(0),
        dhd::hashlist::Hash::new(0xFFFF_FFFF),
        dhd::hashlist::Hash::new(0x8000_0000),
        dhd::hashlist::Hash::new(42),
    ]);
    assert_eq!(list.to_signed(), vec![0, -1, i32::MIN, 42]);
    let back = HashList::from_signed(&list.to_signed());
    assert_eq!(values(&back), values(&list));
}
