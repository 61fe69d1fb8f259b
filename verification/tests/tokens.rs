use ballot_parse::token::{read_mark, read_number, split_fields, Mark};

fn fields_of(record: &str) -> Vec<String> {
    split_fields(record.as_bytes())
        .iter()
        .map(|f| String::from_utf8(f.to_vec()).unwrap())
        .collect()
}

#[test]
fn split_fields_parts_at_every_comma() {
    assert_eq!(fields_of("1,,2,,,"), vec!["1", "", "2", "", "", ""]);
    assert_eq!(fields_of("1,3"), vec!["1", "3"]);
    assert_eq!(fields_of("12,*,/"), vec!["12", "*", "/"]);
}

#[test]
fn split_fields_of_empty_record_is_one_blank_field() {
    assert_eq!(fields_of(""), vec![""]);
}

#[test]
fn split_fields_without_comma_is_the_record() {
    assert_eq!(fields_of("42"), vec!["42"]);
}

#[test]
fn split_fields_keeps_leading_and_trailing_blanks() {
    assert_eq!(fields_of(","), vec!["", ""]);
    assert_eq!(fields_of(",7"), vec!["", "7"]);
    assert_eq!(fields_of("7,"), vec!["7", ""]);
}

#[test]
fn split_fields_joined_give_the_record_back() {
    for record in ["", ",", "1,,2,,,", "a,b,c", ",,x", "no comma at all"] {
        let joined = fields_of(record).join(",");
        assert_eq!(joined, record);
    }
}

#[test]
fn split_fields_does_not_part_inside_other_characters() {
    // The euro sign is three bytes, none of which is a comma.
    assert_eq!(fields_of("1,\u{20ac},2"), vec!["1", "\u{20ac}", "2"]);
}

#[test]
fn read_mark_blank() {
    assert_eq!(read_mark(b""), Mark::Blank);
}

#[test]
fn read_mark_tick_and_cross_are_first_preferences() {
    assert_eq!(read_mark(b"*"), Mark::Pref(1));
    assert_eq!(read_mark(b"/"), Mark::Pref(1));
}

#[test]
fn read_mark_numbers() {
    assert_eq!(read_mark(b"1"), Mark::Pref(1));
    assert_eq!(read_mark(b"12"), Mark::Pref(12));
    assert_eq!(read_mark(b"0"), Mark::Pref(0));
    assert_eq!(read_mark(b"007"), Mark::Pref(7));
    assert_eq!(read_mark(b"4294967295"), Mark::Pref(4294967295));
    assert_eq!(read_mark(b"00000000000000000000004294967295"), Mark::Pref(4294967295));
}

#[test]
fn read_mark_takes_a_plus_sign() {
    assert_eq!(read_mark(b"+5"), Mark::Pref(5));
    assert_eq!(read_mark(b"+0"), Mark::Pref(0));
}

#[test]
fn read_mark_rejects_what_is_no_number() {
    for field in [
        "a", "1a", "a1", " 1", "1 ", "-1", "+", "++1", "1+", "**", "//", "*/", "1.0", "1_000",
        "0x10", "\u{20ac}", "\u{661}",
    ] {
        assert_eq!(read_mark(field.as_bytes()), Mark::Invalid, "field {:?}", field);
    }
}

#[test]
fn read_mark_rejects_numbers_beyond_u32() {
    assert_eq!(read_mark(b"4294967296"), Mark::Invalid);
    assert_eq!(read_mark(b"99999999999999999999999999"), Mark::Invalid);
    assert_eq!(read_mark(b"+4294967296"), Mark::Invalid);
}

#[test]
fn read_mark_agrees_with_std_parse() {
    for field in [
        "0", "1", "9", "10", "99", "100", "65535", "65536", "4294967295", "4294967296", "+1", "+",
        "-0", "1x", "x", "0000", "18446744073709551616",
    ] {
        let expected = match field.parse::<u32>() {
            Ok(n) => Mark::Pref(n),
            Err(_) => Mark::Invalid,
        };
        assert_eq!(read_mark(field.as_bytes()), expected, "field {:?}", field);
    }
}

#[test]
fn read_number_does_not_know_ticks() {
    assert_eq!(read_number(b"*"), None);
    assert_eq!(read_number(b""), None);
    assert_eq!(read_number(b"31"), Some(31));
}
