use psyc::list::ListKind;
use psyc::list_parser::{exceeds, scan_counted, scan_header, scan_line, ElementScan, HeaderScan};
use psyc::parser::{entity_operator, routing_operator, scan_body, scan_modifier, LineScan};
use psyc::scan::{digit, find, has_line_feed, keyword_byte, number, Mark};
use psyc::token::{PsycListParserError, PsycParserError};

#[test]
fn byte_classes() {
    for b in 0..=255u8 {
        let c = b as char;
        assert_eq!(keyword_byte(b), c.is_ascii_alphanumeric() || c == '_');
        assert_eq!(digit(b), c.is_ascii_digit());
        assert_eq!(routing_operator(b), c == ':');
        assert_eq!(entity_operator(b), "=+-?!".contains(c) && b < 128);
    }
}

#[test]
fn searches() {
    let buffer = b"_name12 34\tx\n|\ny\n|";
    assert_eq!(find(buffer, 0, Mark::KeywordEnd), 7);
    assert_eq!(find(buffer, 7, Mark::KeywordEnd), 7);
    assert_eq!(find(buffer, 8, Mark::DigitsEnd), 10);
    assert_eq!(find(buffer, 0, Mark::LineFeed), 12);
    assert_eq!(find(buffer, 13, Mark::LineFeed), 14);
    assert_eq!(find(buffer, 0, Mark::Terminator), 12);
    assert_eq!(find(buffer, 13, Mark::Terminator), 16);
    assert_eq!(find(buffer, 17, Mark::LineFeed), 18);
    assert_eq!(find(buffer, 40, Mark::LineFeed), 40);
    assert_eq!(find(buffer, 17, Mark::Terminator), 17);
    assert!(has_line_feed(buffer, 0, 13));
    assert!(!has_line_feed(buffer, 0, 12));
    assert!(has_line_feed(buffer, 12, 13));
    assert!(!has_line_feed(buffer, 13, 13));
}

#[test]
fn numbers() {
    assert_eq!(number(b"x1234y", 1, 5), Some(1234));
    assert_eq!(number(b"x1234y", 1, 1), Some(0));
    assert_eq!(number(b"007", 0, 3), Some(7));
    let most = usize::MAX.to_string();
    assert_eq!(number(most.as_bytes(), 0, most.len()), Some(usize::MAX));
    let mut over = most.clone().into_bytes();
    let last = over.len() - 1;
    over[last] += 1;
    assert_eq!(number(&over, 0, over.len()), None);
    assert_eq!(number(b"99999999999999999999999999", 0, 26), None);
}

#[test]
fn modifier_lines() {
    assert_eq!(
        scan_modifier(b":_name\t5\tvalue\n", 0, true),
        LineScan::Whole { name_end: 6, value_start: 9, value_end: 14 }
    );
    assert_eq!(
        scan_modifier(b"x=_name 5\tval", 1, true),
        LineScan::Partial { name_end: 7, value_start: 10, missing: 2 }
    );
    assert_eq!(scan_modifier(b":_name 5\t", 0, true), LineScan::More);
    assert_eq!(scan_modifier(b":_name 5\t", 9, true), LineScan::More);
    assert_eq!(scan_modifier(b":_name 5\t", usize::MAX, true), LineScan::More);
    assert_eq!(
        scan_modifier(b":_name\tvalue\n", 0, false),
        LineScan::Whole { name_end: 6, value_start: 7, value_end: 12 }
    );
    assert_eq!(
        scan_modifier(b":_name value\n", 0, false),
        LineScan::Bad(PsycParserError::NoTabBeforeModifierValue)
    );
}

#[test]
fn body_lines() {
    assert_eq!(
        scan_body(b"_m\nbody\n|\n", 0, true),
        LineScan::Whole { name_end: 2, value_start: 3, value_end: 7 }
    );
    assert_eq!(
        scan_body(b"_m 4\nbody", 0, true),
        LineScan::Whole { name_end: 2, value_start: 5, value_end: 9 }
    );
    assert_eq!(
        scan_body(b"_m 6\nbody", 0, true),
        LineScan::Partial { name_end: 2, value_start: 5, missing: 2 }
    );
    assert_eq!(scan_body(b"_m\nbody\n|", 0, true), LineScan::More);
    assert_eq!(scan_body(b"_m\nbody\n|", 10, true), LineScan::More);
    assert_eq!(
        scan_body(b"_m 4\nbody", 0, false),
        LineScan::Bad(PsycParserError::NoNewlineAfterMethod)
    );
}

#[test]
fn list_lines() {
    assert_eq!(
        scan_header(b"8\t.\n", 0),
        HeaderScan::Declared { limit: 8, kind: ListKind::Lines, end: 4 }
    );
    assert_eq!(
        scan_header(b"x120\t#\n", 1),
        HeaderScan::Declared { limit: 120, kind: ListKind::Counted, end: 7 }
    );
    assert_eq!(scan_header(b"8\t.", 0), HeaderScan::More);
    assert_eq!(scan_header(b"8\t.", 3), HeaderScan::More);
    assert_eq!(scan_counted(b"#3", 2, None), ElementScan::More);
    assert_eq!(scan_line(b"abc", 3, Some(0)), ElementScan::More);
    assert_eq!(scan_header(b"8\t,", 0), HeaderScan::Bad(PsycListParserError::InvalidType));
    assert_eq!(
        scan_counted(b"#3\tabc\n", 0, Some(3)),
        ElementScan::Whole { value_start: 3, value_end: 6 }
    );
    assert_eq!(
        scan_counted(b"#3\tab", 0, None),
        ElementScan::Partial { value_start: 3, missing: 1 }
    );
    assert_eq!(
        scan_counted(b"#3\tabc\n", 0, Some(2)),
        ElementScan::Bad(PsycListParserError::InvalidElementLength)
    );
    assert_eq!(scan_line(b"abc\n", 0, Some(3)), ElementScan::Whole { value_start: 0, value_end: 3 });
    assert_eq!(scan_line(b"abc", 0, Some(3)), ElementScan::More);
    assert_eq!(
        scan_line(b"abcd", 0, Some(3)),
        ElementScan::Bad(PsycListParserError::InvalidElementLength)
    );
    assert!(exceeds(Some(3), 4));
    assert!(!exceeds(Some(3), 3));
    assert!(!exceeds(None, usize::MAX));
}
