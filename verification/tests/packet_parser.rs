use psyc::{Parser, PsycParseFlags, PsycParser, PsycParserError, PsycParserResult};

/// A token with its bytes copied out of the buffer.
#[derive(Debug, PartialEq, Clone)]
enum Owned {
    Sync,
    Reset,
    Complete,
    Routing(char, Vec<u8>, Vec<u8>),
    Entity(char, Vec<u8>, Vec<u8>),
    Body(Vec<u8>, Vec<u8>),
    Failed(PsycParserError),
}

/// Feeds `input` to `parser` in chunks of `size` bytes, moving the unparsed
/// bytes to the front of the buffer whenever the parser asks for more, and
/// puts the parts of each value together again.
fn feed(parser: &mut PsycParser, input: &[u8], size: usize) -> Vec<Owned> {
    let mut out: Vec<Owned> = Vec::new();
    let mut buffer: Vec<u8> = Vec::new();
    let mut taken = 0;
    let mut open: Option<Owned> = None;
    let mut rounds = 0;
    loop {
        rounds += 1;
        assert!(rounds < 10_000);
        let result = parser.parse(&buffer);
        match result {
            Ok(PsycParserResult::InsufficientData) => {
                if taken == input.len() {
                    return out;
                }
                let kept = parser.copy_unparsed_into_buffer(&mut buffer);
                parser.rewind();
                buffer.truncate(kept);
                let upto = (taken + size).min(input.len());
                buffer.extend_from_slice(&input[taken..upto]);
                taken = upto;
            }
            Ok(PsycParserResult::StateSync) => out.push(Owned::Sync),
            Ok(PsycParserResult::StateReset) => out.push(Owned::Reset),
            Ok(PsycParserResult::Complete) => {
                out.push(Owned::Complete);
                return out;
            }
            Ok(PsycParserResult::RoutingModifier { operator, name, value }) => {
                out.push(Owned::Routing(operator, name.to_vec(), value.to_vec()))
            }
            Ok(PsycParserResult::EntityModifier { operator, name, value }) => {
                out.push(Owned::Entity(operator, name.to_vec(), value.to_vec()))
            }
            Ok(PsycParserResult::EntityModifierStart { operator, name, value_part }) => {
                assert!(open.is_none());
                open = Some(Owned::Entity(operator, name.to_vec(), value_part.to_vec()));
            }
            Ok(PsycParserResult::EntityModifierCont { value_part }) => match open.as_mut() {
                Some(Owned::Entity(_, _, value)) => value.extend_from_slice(value_part),
                _ => panic!("a part without a start"),
            },
            Ok(PsycParserResult::EntityModifierEnd { value_part }) => match open.take() {
                Some(Owned::Entity(operator, name, mut value)) => {
                    value.extend_from_slice(value_part);
                    out.push(Owned::Entity(operator, name, value));
                }
                _ => panic!("an end without a start"),
            },
            Ok(PsycParserResult::Body { name, value }) => {
                out.push(Owned::Body(name.to_vec(), value.to_vec()))
            }
            Ok(PsycParserResult::BodyStart { name, value_part }) => {
                assert!(open.is_none());
                open = Some(Owned::Body(name.to_vec(), value_part.to_vec()));
            }
            Ok(PsycParserResult::BodyCont { value_part }) => match open.as_mut() {
                Some(Owned::Body(_, value)) => value.extend_from_slice(value_part),
                _ => panic!("a part without a start"),
            },
            Ok(PsycParserResult::BodyEnd { value_part }) => match open.take() {
                Some(Owned::Body(name, mut value)) => {
                    value.extend_from_slice(value_part);
                    out.push(Owned::Body(name, value));
                }
                _ => panic!("an end without a start"),
            },
            Err(e) => {
                out.push(Owned::Failed(e));
                return out;
            }
        }
    }
}

#[test]
fn routing_modifier_then_complete() {
    let input = b":_name\t5\tvalue\n\n";
    let mut parser = PsycParser::new();
    assert_eq!(
        parser.parse(input),
        Ok(PsycParserResult::RoutingModifier { operator: ':', name: b"_name", value: b"value" })
    );
    assert_eq!(parser.unparsed_position(), 14);
    assert_eq!(parser.unparsed_length(), 2);
    assert_eq!(parser.parse(input), Ok(PsycParserResult::Complete));
    assert_eq!(parser.unparsed_position(), 16);
    assert_eq!(parser.unparsed_length(), 0);
}

#[test]
fn routing_modifier_split_before_value() {
    let input = b":_name\t5\tvalue\n\n";
    let mut buffer: Vec<u8> = input[..9].to_vec();
    assert_eq!(&buffer[..], b":_name\t5\t");
    let mut parser = PsycParser::new();
    assert_eq!(parser.parse(&buffer), Ok(PsycParserResult::InsufficientData));
    let kept = parser.copy_unparsed_into_buffer(&mut buffer);
    parser.rewind();
    assert_eq!(kept, 9);
    buffer.truncate(kept);
    buffer.extend_from_slice(&input[9..]);
    assert_eq!(
        parser.parse(&buffer),
        Ok(PsycParserResult::RoutingModifier { operator: ':', name: b"_name", value: b"value" })
    );
    assert_eq!(parser.parse(&buffer), Ok(PsycParserResult::Complete));
}

#[test]
fn routing_modifier_split_inside_value() {
    let input = b":_name\t5\tvalue\n\n";
    let mut buffer: Vec<u8> = input[..10].to_vec();
    let mut parser = PsycParser::new();
    assert_eq!(parser.parse(&buffer), Ok(PsycParserResult::InsufficientData));
    let kept = parser.copy_unparsed_into_buffer(&mut buffer);
    parser.rewind();
    buffer.truncate(kept);
    buffer.extend_from_slice(&input[10..]);
    assert_eq!(
        parser.parse(&buffer),
        Ok(PsycParserResult::RoutingModifier { operator: ':', name: b"_name", value: b"value" })
    );
}

#[test]
fn missing_tab_before_value() {
    let mut parser = PsycParser::new();
    assert_eq!(
        parser.parse(b":_name\t5 value\n"),
        Err(PsycParserError::NoTabBeforeModifierValue)
    );
}

#[test]
fn error_is_final() {
    let mut parser = PsycParser::new();
    assert_eq!(parser.parse(b":\tvalue\n\n"), Err(PsycParserError::NoModifierName));
    assert_eq!(parser.parse(b":\tvalue\n\n"), Err(PsycParserError::NoModifierName));
    parser.reset();
    assert_eq!(parser.parse(b":_a\tb\n\n"), Err(PsycParserError::NoModifierName));
    parser.resync();
    parser.rewind();
    assert_eq!(parser.parse(b"\n"), Err(PsycParserError::NoModifierName));
}

#[test]
fn length_after_space() {
    let input = b":_name 5\tva\nue\n\n";
    let mut parser = PsycParser::new();
    assert_eq!(
        parser.parse(input),
        Ok(PsycParserResult::RoutingModifier { operator: ':', name: b"_name", value: b"va\nue" })
    );
    assert_eq!(parser.parse(input), Ok(PsycParserResult::Complete));
}

#[test]
fn value_without_length() {
    let input = b":_name\tsome value\n\n";
    let mut parser = PsycParser::new();
    assert_eq!(
        parser.parse(input),
        Ok(PsycParserResult::RoutingModifier {
            operator: ':',
            name: b"_name",
            value: b"some value"
        })
    );
    assert_eq!(parser.parse(input), Ok(PsycParserResult::Complete));
}

#[test]
fn empty_values() {
    let input = b":_a\t\n=_b 0\t\n\n";
    let mut parser = PsycParser::new();
    assert_eq!(
        parser.parse(input),
        Ok(PsycParserResult::RoutingModifier { operator: ':', name: b"_a", value: b"" })
    );
    assert_eq!(
        parser.parse(input),
        Ok(PsycParserResult::EntityModifier { operator: '=', name: b"_b", value: b"" })
    );
    assert_eq!(parser.parse(input), Ok(PsycParserResult::Complete));
}

#[test]
fn empty_packet() {
    let mut parser = PsycParser::new();
    assert_eq!(parser.parse(b"\n"), Ok(PsycParserResult::Complete));
    assert_eq!(parser.unparsed_position(), 1);
}

#[test]
fn complete_is_repeated() {
    let mut parser = PsycParser::new();
    assert_eq!(parser.parse(b"\n:_a\tb\n"), Ok(PsycParserResult::Complete));
    assert_eq!(parser.parse(b"\n:_a\tb\n"), Ok(PsycParserResult::Complete));
    assert_eq!(parser.unparsed_position(), 1);
}

#[test]
fn whole_packet_with_body() {
    let input = b":_target\tpsyc://host/~user\n=_nick\tfippo\n+_list 3\ta\nb\n_message\nHello\nworld\n|\n";
    let mut parser = PsycParser::new();
    assert_eq!(
        parser.parse(input),
        Ok(PsycParserResult::RoutingModifier {
            operator: ':',
            name: b"_target",
            value: b"psyc://host/~user"
        })
    );
    assert_eq!(
        parser.parse(input),
        Ok(PsycParserResult::EntityModifier { operator: '=', name: b"_nick", value: b"fippo" })
    );
    assert_eq!(
        parser.parse(input),
        Ok(PsycParserResult::EntityModifier { operator: '+', name: b"_list", value: b"a\nb" })
    );
    assert_eq!(
        parser.parse(input),
        Ok(PsycParserResult::Body { name: b"_message", value: b"Hello\nworld" })
    );
    assert_eq!(parser.parse(input), Ok(PsycParserResult::Complete));
    assert_eq!(parser.unparsed_position(), input.len());
    assert_eq!(parser.unparsed_length(), 0);
}

#[test]
fn body_with_length() {
    let input = b"_data 7\nab\n|\ncd\n|\n";
    let mut parser = PsycParser::new();
    assert_eq!(
        parser.parse(input),
        Ok(PsycParserResult::Body { name: b"_data", value: b"ab\n|\ncd" })
    );
    assert_eq!(parser.parse(input), Ok(PsycParserResult::Complete));
}

#[test]
fn entity_value_in_parts() {
    let mut parser = PsycParser::new();
    assert_eq!(
        parser.parse(b"=_text 10\tabc"),
        Ok(PsycParserResult::EntityModifierStart {
            operator: '=',
            name: b"_text",
            value_part: b"abc"
        })
    );
    assert_eq!(parser.unparsed_position(), 13);
    assert_eq!(parser.unparsed_length(), 0);
    assert_eq!(parser.parse(b"=_text 10\tabc"), Ok(PsycParserResult::InsufficientData));
    parser.rewind();
    assert_eq!(
        parser.parse(b"defg"),
        Ok(PsycParserResult::EntityModifierCont { value_part: b"defg" })
    );
    parser.rewind();
    assert_eq!(parser.parse(b""), Ok(PsycParserResult::InsufficientData));
    assert_eq!(
        parser.parse(b"hij\n\n"),
        Ok(PsycParserResult::EntityModifierEnd { value_part: b"hij" })
    );
    assert_eq!(parser.unparsed_position(), 3);
    assert_eq!(parser.parse(b"hij\n\n"), Ok(PsycParserResult::Complete));
}

#[test]
fn body_value_in_parts() {
    let mut parser = PsycParser::new();
    assert_eq!(
        parser.parse(b"_m 6\nab"),
        Ok(PsycParserResult::BodyStart { name: b"_m", value_part: b"ab" })
    );
    parser.rewind();
    assert_eq!(parser.parse(b"cd"), Ok(PsycParserResult::BodyCont { value_part: b"cd" }));
    parser.rewind();
    assert_eq!(parser.parse(b"ef\n|"), Ok(PsycParserResult::BodyEnd { value_part: b"ef" }));
    assert_eq!(parser.parse(b"ef\n|"), Ok(PsycParserResult::InsufficientData));
    assert_eq!(parser.unparsed_position(), 2);
    assert_eq!(parser.unparsed_length(), 2);
    parser.rewind();
    assert_eq!(parser.parse(b"\n|\n"), Ok(PsycParserResult::Complete));
}

#[test]
fn body_without_length_waits_for_terminator() {
    let mut parser = PsycParser::new();
    assert_eq!(parser.parse(b"_m\nHello\n|"), Ok(PsycParserResult::InsufficientData));
    assert_eq!(parser.unparsed_position(), 0);
    assert_eq!(parser.unparsed_length(), 10);
    assert_eq!(
        parser.parse(b"_m\nHello\n|\n"),
        Ok(PsycParserResult::Body { name: b"_m", value: b"Hello" })
    );
    assert_eq!(parser.parse(b"_m\nHello\n|\n"), Ok(PsycParserResult::Complete));
}

#[test]
fn insufficient_data_is_repeated() {
    let inputs: [&[u8]; 8] = [
        b"",
        b":",
        b":_na",
        b":_name\t",
        b":_name\tval",
        b":_name 12",
        b":_name 12\tabc",
        b"_method",
    ];
    for input in inputs {
        let mut parser = PsycParser::new();
        assert_eq!(parser.parse(input), Ok(PsycParserResult::InsufficientData));
        assert_eq!(parser.unparsed_position(), 0);
        assert_eq!(parser.unparsed_length(), input.len());
        assert_eq!(parser.parse(input), Ok(PsycParserResult::InsufficientData));
        assert_eq!(parser.unparsed_position(), 0);
    }
    let mut parser = PsycParser::new();
    let input = b":_a\tb\n";
    assert_eq!(
        parser.parse(input),
        Ok(PsycParserResult::RoutingModifier { operator: ':', name: b"_a", value: b"b" })
    );
    assert_eq!(parser.parse(input), Ok(PsycParserResult::InsufficientData));
    assert_eq!(parser.parse(input), Ok(PsycParserResult::InsufficientData));
    assert_eq!(parser.unparsed_position(), 5);
    assert_eq!(parser.unparsed_length(), 1);
}

#[test]
fn same_buffer_gives_same_tokens() {
    let input = b":_a\tb\n=_c 2\tde\n_m\nbody\n|\n";
    let first = feed(&mut PsycParser::new(), input, input.len());
    let second = feed(&mut PsycParser::new(), input, input.len());
    assert_eq!(first, second);
    assert_eq!(
        first,
        vec![
            Owned::Routing(':', b"_a".to_vec(), b"b".to_vec()),
            Owned::Entity('=', b"_c".to_vec(), b"de".to_vec()),
            Owned::Body(b"_m".to_vec(), b"body".to_vec()),
            Owned::Complete,
        ]
    );
}

#[test]
fn parts_give_the_value_of_the_whole() {
    let inputs: [&[u8]; 4] = [
        b":_name\t5\tvalue\n\n",
        b":_a\tb\n:_b 3\tx\ny\n=_c 12\tabcdefghijkl\n-_d\t\n_m 11\nHello\nworld\n|\n",
        b"=_c\t4\tabcd\n?_q\tplain\n_method\nsome\n|text\n\n|\n",
        b"_m 0\n\n|\n",
    ];
    for input in inputs {
        let whole = feed(&mut PsycParser::new(), input, input.len());
        assert_eq!(whole.last(), Some(&Owned::Complete));
        for size in 1..=input.len() {
            let parts = feed(&mut PsycParser::new(), input, size);
            assert_eq!(parts, whole, "in chunks of {}", size);
        }
    }
}

#[test]
fn order_of_the_grammar() {
    let mut parser = PsycParser::new();
    let input = b"=_c\td\n:_a\tb\n\n";
    assert_eq!(
        parser.parse(input),
        Ok(PsycParserResult::EntityModifier { operator: '=', name: b"_c", value: b"d" })
    );
    assert_eq!(parser.parse(input), Err(PsycParserError::GenericError));

    let mut parser = PsycParser::new();
    let input = b"_m 1\nx:_a\tb\n";
    assert_eq!(parser.parse(input), Ok(PsycParserResult::Body { name: b"_m", value: b"x" }));
    assert_eq!(parser.parse(input), Err(PsycParserError::NoEndDelimiter));
}

#[test]
fn each_error() {
    let cases: [(&[u8], PsycParserError); 11] = [
        (b":_name \tvalue\n", PsycParserError::NoModifierLength),
        (b":_name x\tvalue\n", PsycParserError::NoModifierLength),
        (b"_m x\n", PsycParserError::NoContentLength),
        (b"_m 99999999999999999999999999\nabc", PsycParserError::NoContentLength),
        (b"_m\tx\n", PsycParserError::NoNewlineAfterMethod),
        (b":_name 99999999999999999999999999\tabc\n", PsycParserError::InvalidModifierLength),
        (b":_name=value\n", PsycParserError::NoTabBeforeModifierValue),
        (b":_name 5value\n", PsycParserError::NoTabBeforeModifierValue),
        (b":\tvalue\n", PsycParserError::NoModifierName),
        (b"_m 5 \nabcde\n|\n", PsycParserError::NoNewlineAfterContentLength),
        (b"|\n", PsycParserError::GenericError),
    ];
    for (input, error) in cases {
        let mut parser = PsycParser::new();
        assert_eq!(parser.parse(input), Err(error), "{:?}", input);
    }
    let mut parser = PsycParser::new();
    let input = b":_a 2\tbcd\n\n";
    assert_eq!(
        parser.parse(input),
        Ok(PsycParserResult::RoutingModifier { operator: ':', name: b"_a", value: b"bc" })
    );
    assert_eq!(parser.parse(input), Err(PsycParserError::NoNewlineAfterModifier));
    let mut parser = PsycParser::new();
    let input = b":_a 5\tb\n:_c\td\n\n";
    assert_eq!(
        parser.parse(input),
        Ok(PsycParserResult::RoutingModifier { operator: ':', name: b"_a", value: b"b\n:_c" })
    );
    assert_eq!(parser.parse(input), Err(PsycParserError::InvalidModifierLength));
    let mut parser = PsycParser::new();
    assert_eq!(
        parser.parse(b"=_a 5\tb\n"),
        Ok(PsycParserResult::EntityModifierStart { operator: '=', name: b"_a", value_part: b"b\n" })
    );
    parser.rewind();
    assert_eq!(
        parser.parse(b"=_c\td\n\n"),
        Ok(PsycParserResult::EntityModifierEnd { value_part: b"=_c" })
    );
    assert_eq!(parser.parse(b"=_c\td\n\n"), Err(PsycParserError::InvalidModifierLength));
    let mut parser = PsycParser::new();
    let input = b"_m 2\nab\n:\n";
    assert_eq!(parser.parse(input), Ok(PsycParserResult::Body { name: b"_m", value: b"ab" }));
    assert_eq!(parser.parse(input), Err(PsycParserError::NoEndDelimiter));
    assert_eq!(parser.unparsed_position(), 7);
}

#[test]
fn flags_switch_parts_off() {
    let no_routing = PsycParseFlags { routing: false, entity: true, length: true };
    let mut parser = PsycParser::with_flags(no_routing);
    assert_eq!(parser.parse(b":_a\tb\n\n"), Err(PsycParserError::GenericError));
    let mut parser = PsycParser::with_flags(no_routing);
    assert_eq!(
        parser.parse(b"=_a\tb\n\n"),
        Ok(PsycParserResult::EntityModifier { operator: '=', name: b"_a", value: b"b" })
    );

    let no_entity = PsycParseFlags { routing: true, entity: false, length: true };
    let mut parser = PsycParser::with_flags(no_entity);
    assert_eq!(parser.parse(b"=_a\tb\n\n"), Err(PsycParserError::GenericError));

    let no_length = PsycParseFlags { routing: true, entity: true, length: false };
    let mut parser = PsycParser::with_flags(no_length);
    assert_eq!(
        parser.parse(b":_name\t5\tvalue\n\n"),
        Ok(PsycParserResult::RoutingModifier {
            operator: ':',
            name: b"_name",
            value: b"5\tvalue"
        })
    );
    let mut parser = PsycParser::with_flags(no_length);
    assert_eq!(
        parser.parse(b":_name 5\tvalue\n\n"),
        Err(PsycParserError::NoTabBeforeModifierValue)
    );
    let mut parser = PsycParser::with_flags(no_length);
    assert_eq!(parser.parse(b"_m 5\nvalue\n|\n"), Err(PsycParserError::NoNewlineAfterMethod));

    assert_eq!(
        PsycParseFlags::all(),
        PsycParseFlags { routing: true, entity: true, length: true }
    );
}

#[test]
fn reset_starts_the_next_packet() {
    let input = b":_a\tb\n\n:_c\td\n\n";
    let mut parser = PsycParser::new();
    assert_eq!(
        parser.parse(input),
        Ok(PsycParserResult::RoutingModifier { operator: ':', name: b"_a", value: b"b" })
    );
    assert_eq!(parser.parse(input), Ok(PsycParserResult::Complete));
    parser.reset();
    assert_eq!(parser.parse(input), Ok(PsycParserResult::StateReset));
    assert_eq!(parser.unparsed_position(), 7);
    assert_eq!(
        parser.parse(input),
        Ok(PsycParserResult::RoutingModifier { operator: ':', name: b"_c", value: b"d" })
    );
    assert_eq!(parser.parse(input), Ok(PsycParserResult::Complete));
    assert_eq!(parser.unparsed_position(), input.len());
}

#[test]
fn resync_skips_to_the_next_packet() {
    let input = b"lost bytes\n|\n:_a\tb\n\n";
    let mut parser = PsycParser::new();
    parser.resync();
    assert_eq!(parser.parse(&input[..11]), Ok(PsycParserResult::InsufficientData));
    assert_eq!(parser.unparsed_position(), 0);
    assert_eq!(parser.parse(input), Ok(PsycParserResult::StateSync));
    assert_eq!(parser.unparsed_position(), 13);
    assert_eq!(
        parser.parse(input),
        Ok(PsycParserResult::RoutingModifier { operator: ':', name: b"_a", value: b"b" })
    );
    assert_eq!(parser.parse(input), Ok(PsycParserResult::Complete));
}

#[test]
fn shorter_buffer_changes_nothing() {
    let input = b":_a\tb\n\n";
    let mut parser = PsycParser::new();
    assert_eq!(
        parser.parse(input),
        Ok(PsycParserResult::RoutingModifier { operator: ':', name: b"_a", value: b"b" })
    );
    assert_eq!(parser.parse(b":_"), Ok(PsycParserResult::InsufficientData));
    assert_eq!(parser.unparsed_position(), 5);
    assert_eq!(parser.unparsed_length(), 2);
    assert_eq!(parser.parse(input), Ok(PsycParserResult::Complete));
}

#[test]
fn unparsed_bytes_move_to_the_front() {
    let mut buffer: Vec<u8> = b":_a\tb\n:_c\td".to_vec();
    let mut parser = PsycParser::new();
    assert_eq!(
        parser.parse(&buffer),
        Ok(PsycParserResult::RoutingModifier { operator: ':', name: b"_a", value: b"b" })
    );
    assert_eq!(parser.parse(&buffer), Ok(PsycParserResult::InsufficientData));
    assert_eq!(parser.unparsed_position(), 5);
    assert_eq!(parser.unparsed_length(), 6);
    let kept = parser.copy_unparsed_into_buffer(&mut buffer);
    assert_eq!(kept, 6);
    assert_eq!(&buffer[..], b"\n:_c\td:_c\td");
    parser.rewind();
    assert_eq!(parser.unparsed_position(), 0);
    assert_eq!(parser.unparsed_length(), 6);
    buffer.truncate(kept);
    buffer.extend_from_slice(b"\n\n");
    assert_eq!(
        parser.parse(&buffer),
        Ok(PsycParserResult::RoutingModifier { operator: ':', name: b"_c", value: b"d" })
    );
    assert_eq!(parser.parse(&buffer), Ok(PsycParserResult::Complete));
}
