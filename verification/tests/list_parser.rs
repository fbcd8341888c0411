use psyc::{Parser, PsycListParser, PsycListParserError, PsycListParserResult};

/// Feeds `input` to a new parser in chunks of `size` bytes and puts the parts
/// of each element together again. The last entry tells how the run ended.
fn elements(input: &[u8], size: usize) -> (Vec<Vec<u8>>, Option<PsycListParserError>) {
    let mut parser = PsycListParser::new();
    let mut out: Vec<Vec<u8>> = Vec::new();
    let mut buffer: Vec<u8> = Vec::new();
    let mut taken = 0;
    let mut open: Option<Vec<u8>> = None;
    let mut rounds = 0;
    loop {
        rounds += 1;
        assert!(rounds < 10_000);
        match parser.parse(&buffer) {
            Ok(PsycListParserResult::InsufficientData) => {
                assert!(taken < input.len(), "the list does not end");
                let kept = parser.copy_unparsed_into_buffer(&mut buffer);
                parser.rewind();
                buffer.truncate(kept);
                let upto = (taken + size).min(input.len());
                buffer.extend_from_slice(&input[taken..upto]);
                taken = upto;
            }
            Ok(PsycListParserResult::Complete) => return (out, None),
            Ok(PsycListParserResult::ListElement { value }) => out.push(value.to_vec()),
            Ok(PsycListParserResult::ListElementStart { value_part }) => {
                assert!(open.is_none());
                open = Some(value_part.to_vec());
            }
            Ok(PsycListParserResult::ListElementCont { value_part }) => {
                open.as_mut().unwrap().extend_from_slice(value_part)
            }
            Ok(PsycListParserResult::ListElementEnd { value_part }) => {
                let mut value = open.take().unwrap();
                value.extend_from_slice(value_part);
                out.push(value);
            }
            Err(e) => return (out, Some(e)),
        }
    }
}

#[test]
fn list_of_two_lines() {
    let input = b"8\t.\nelem1\nelem2\n|\n";
    let mut parser = PsycListParser::new();
    assert_eq!(parser.parse(input), Ok(PsycListParserResult::ListElement { value: b"elem1" }));
    assert_eq!(parser.unparsed_position(), 9);
    assert_eq!(parser.unparsed_length(), 9);
    assert_eq!(parser.parse(input), Ok(PsycListParserResult::ListElement { value: b"elem2" }));
    assert_eq!(parser.parse(input), Ok(PsycListParserResult::Complete));
    assert_eq!(parser.unparsed_position(), input.len());
    assert_eq!(parser.parse(input), Ok(PsycListParserResult::Complete));
}

#[test]
fn list_without_header() {
    let input = b"elem1\n#5\tel\nm2\n\n|\n";
    let mut parser = PsycListParser::new();
    assert_eq!(parser.parse(input), Ok(PsycListParserResult::ListElement { value: b"elem1" }));
    assert_eq!(parser.parse(input), Ok(PsycListParserResult::ListElement { value: b"el\nm2" }));
    assert_eq!(parser.parse(input), Ok(PsycListParserResult::ListElement { value: b"" }));
    assert_eq!(parser.parse(input), Ok(PsycListParserResult::Complete));
}

#[test]
fn empty_lists() {
    assert_eq!(PsycListParser::new().parse(b"|\n"), Ok(PsycListParserResult::Complete));
    assert_eq!(PsycListParser::new().parse(b"0\t#\n|\n"), Ok(PsycListParserResult::Complete));
}

#[test]
fn counted_element_in_parts() {
    let mut parser = PsycListParser::new();
    assert_eq!(
        parser.parse(b"10\t#\n#7\tab"),
        Ok(PsycListParserResult::ListElementStart { value_part: b"ab" })
    );
    assert_eq!(parser.parse(b"10\t#\n#7\tab"), Ok(PsycListParserResult::InsufficientData));
    parser.rewind();
    assert_eq!(
        parser.parse(b"cd"),
        Ok(PsycListParserResult::ListElementCont { value_part: b"cd" })
    );
    parser.rewind();
    assert_eq!(
        parser.parse(b"efg\n|\n"),
        Ok(PsycListParserResult::ListElementEnd { value_part: b"efg" })
    );
    assert_eq!(parser.parse(b"efg\n|\n"), Ok(PsycListParserResult::Complete));
}

#[test]
fn header_alone_is_consumed() {
    let mut parser = PsycListParser::new();
    assert_eq!(parser.parse(b"8\t.\nel"), Ok(PsycListParserResult::InsufficientData));
    assert_eq!(parser.unparsed_position(), 4);
    assert_eq!(parser.unparsed_length(), 2);
    assert_eq!(parser.parse(b"8\t.\nel"), Ok(PsycListParserResult::InsufficientData));
    assert_eq!(parser.unparsed_position(), 4);
    assert_eq!(
        parser.parse(b"8\t.\nelem1\n"),
        Ok(PsycListParserResult::ListElement { value: b"elem1" })
    );
}

#[test]
fn list_insufficient_data_is_repeated() {
    let inputs: [&[u8]; 7] = [b"", b"8", b"8\t", b"8\t.", b"elem", b"#", b"#12"];
    for input in inputs {
        let mut parser = PsycListParser::new();
        assert_eq!(parser.parse(input), Ok(PsycListParserResult::InsufficientData));
        assert_eq!(parser.unparsed_position(), 0);
        assert_eq!(parser.unparsed_length(), input.len());
        assert_eq!(parser.parse(input), Ok(PsycListParserResult::InsufficientData));
    }
}

#[test]
fn each_list_error() {
    let cases: [(&[u8], PsycListParserError); 13] = [
        (b"#x\n", PsycListParserError::NoElementLength),
        (b"#5x\n", PsycListParserError::InvalidElementLength),
        (b"#99999999999999999999999999\tabc\n", PsycListParserError::InvalidElementLength),
        (b"4\t#\n#5\tabcde\n|\n", PsycListParserError::InvalidElementLength),
        (b"4\t.\nabcde\n|\n", PsycListParserError::InvalidElementLength),
        (b"4\t.\nabcde", PsycListParserError::InvalidElementLength),
        (b"99999999999999999999999999\t.\n", PsycListParserError::InvalidElementLength),
        (b"8\t.\n#2\tab\n|\n", PsycListParserError::InvalidElementType),
        (b"8\t#\nab\n|\n", PsycListParserError::InvalidElementType),
        (b"|x\n", PsycListParserError::InvalidElementStart),
        (b"8\t!\n", PsycListParserError::InvalidType),
        (b"8\t.x\n", PsycListParserError::InvalidType),
        (b"8 .\n", PsycListParserError::GenericError),
    ];
    for (input, error) in cases {
        let mut parser = PsycListParser::new();
        assert_eq!(parser.parse(input), Err(error), "{:?}", input);
        assert_eq!(parser.parse(input), Err(error), "{:?}", input);
    }
    let mut parser = PsycListParser::new();
    let input = b"#2\tabc\n|\n";
    assert_eq!(parser.parse(input), Ok(PsycListParserResult::ListElement { value: b"ab" }));
    assert_eq!(parser.parse(input), Err(PsycListParserError::GenericError));
    let mut parser = PsycListParser::new();
    let input = b"#4\tab\ncd\n|\n";
    assert_eq!(parser.parse(input), Ok(PsycListParserResult::ListElement { value: b"ab\nc" }));
    assert_eq!(parser.parse(input), Err(PsycListParserError::InvalidElementLength));
}

#[test]
fn list_parts_give_the_value_of_the_whole() {
    let inputs: [&[u8]; 3] = [
        b"8\t.\nelem1\nelem2\n|\n",
        b"one\n#11\tHello\nworld\n\n#0\t\nlast\n|\n",
        b"20\t#\n#3\ta|b\n#20\t01234567890123456789\n|\n",
    ];
    for input in inputs {
        let whole = elements(input, input.len());
        assert_eq!(whole.1, None);
        for size in 1..=input.len() {
            assert_eq!(elements(input, size), whole, "in chunks of {}", size);
        }
    }
    assert_eq!(
        elements(b"8\t.\nelem1\nelem2\n|\n", 3).0,
        vec![b"elem1".to_vec(), b"elem2".to_vec()]
    );
}

#[test]
fn list_unparsed_bytes_move_to_the_front() {
    let mut buffer: Vec<u8> = b"8\t.\nelem1\nele".to_vec();
    let mut parser = PsycListParser::new();
    assert_eq!(parser.parse(&buffer), Ok(PsycListParserResult::ListElement { value: b"elem1" }));
    assert_eq!(parser.parse(&buffer), Ok(PsycListParserResult::InsufficientData));
    let kept = parser.copy_unparsed_into_buffer(&mut buffer);
    assert_eq!(kept, 4);
    assert_eq!(&buffer[..kept], b"\nele");
    parser.rewind();
    buffer.truncate(kept);
    buffer.extend_from_slice(b"m2\n|\n");
    assert_eq!(parser.parse(&buffer), Ok(PsycListParserResult::ListElement { value: b"elem2" }));
    assert_eq!(parser.parse(&buffer), Ok(PsycListParserResult::Complete));
}
