use skytable::{parse, DecodeError};

fn element(tag: char, value: &str) -> (char, String) {
    (tag, String::from(value))
}

fn encode_count(marker: u8, count: usize, out: &mut Vec<u8>) {
    let digits = count.to_string();
    out.push(b'#');
    out.extend_from_slice((digits.len() + 1).to_string().as_bytes());
    out.push(b'\n');
    out.push(marker);
    out.extend_from_slice(digits.as_bytes());
    out.push(b'\n');
}

fn encode_element(tag: u8, value: &[u8], out: &mut Vec<u8>) {
    out.push(tag);
    out.extend_from_slice(value.len().to_string().as_bytes());
    out.push(b'\n');
    out.extend_from_slice(value);
    out.push(b'\n');
}

/// Writes a response as a well-behaved server would: every field in plain
/// decimal, every line closed by a line feed.
fn encode(groups: &[Vec<(u8, Vec<u8>)>]) -> Vec<u8> {
    let mut out = Vec::new();
    encode_count(b'*', groups.len(), &mut out);
    for group in groups {
        encode_count(b'&', group.len(), &mut out);
        for (tag, value) in group {
            encode_element(*tag, value, &mut out);
        }
    }
    out
}

#[test]
fn short_buffers_are_incomplete() {
    let whole = b"#2\n*1\n#2\n&0\n";
    for len in 0..6 {
        assert_eq!(parse(&whole[..len]), Err(DecodeError::Incomplete));
    }
    assert_eq!(parse(b""), Err(DecodeError::Incomplete));
    assert_eq!(parse(b"xxxxx"), Err(DecodeError::Incomplete));
    assert_eq!(parse(b"\n\n\n\n\n"), Err(DecodeError::Incomplete));
}

#[test]
fn six_bytes_are_looked_at() {
    assert_eq!(parse(b"xxxxxx"), Err(DecodeError::Malformed));
    assert_eq!(parse(b"#2\n*1\n"), Err(DecodeError::Incomplete));
}

#[test]
fn one_group_without_elements() {
    assert_eq!(parse(b"#2\n*1\n#2\n&0\n"), Ok(vec![vec![]]));
}

#[test]
fn one_group_with_one_element() {
    assert_eq!(
        parse(b"#2\n*1\n#2\n&1\n+2\nhi\n"),
        Ok(vec![vec![element('+', "hi")]])
    );
}

#[test]
fn a_line_that_reaches_into_the_elements_is_malformed() {
    // The group's line is announced with seven bytes, so it is "&1\n+2\nh" and
    // its count field holds more than digits.
    assert_eq!(
        parse(b"#2\n*1\n#7\n&1\n+2\nhi\n"),
        Err(DecodeError::Malformed)
    );
}

#[test]
fn elements_keep_their_order() {
    assert_eq!(
        parse(b"#2\n*1\n#2\n&3\n+1\na\n!2\nbc\n:0\n\n"),
        Ok(vec![vec![
            element('+', "a"),
            element('!', "bc"),
            element(':', ""),
        ]])
    );
}

#[test]
fn a_value_may_hold_line_feeds_and_markers() {
    assert_eq!(
        parse(b"#2\n*1\n#2\n&2\n+5\n\n#&*\n\n+1\n\n\n"),
        Ok(vec![vec![element('+', "\n#&*\n"), element('+', "\n")]])
    );
}

#[test]
fn a_line_is_taken_by_its_length_alone() {
    // The length of the group's line says three bytes, so "&1\n" is the line
    // and the count field holds a line feed.
    assert_eq!(parse(b"#2\n*1\n#3\n&1\n\n+0\n\n"), Err(DecodeError::Malformed));
    // A line may be longer than it needs to be if the digits fill it.
    assert_eq!(
        parse(b"#4\n*001\n#5\n&0001\n+1\nx\n"),
        Ok(vec![vec![element('+', "x")]])
    );
}

#[test]
fn fields_may_have_leading_zeros() {
    assert_eq!(
        parse(b"#002\n*1\n#02\n&1\n+0002\nhi\n"),
        Ok(vec![vec![element('+', "hi")]])
    );
}

#[test]
fn an_empty_field_is_zero() {
    // No digit before the line feed of an element's length.
    assert_eq!(
        parse(b"#2\n*1\n#2\n&1\n+\n\n"),
        Ok(vec![vec![element('+', "")]])
    );
    // The array marker alone.
    assert_eq!(parse(b"#2\n*1\n#1\n&\n"), Ok(vec![vec![]]));
    // The group-count marker alone: no group is declared.
    assert_eq!(parse(b"#1\n*\nxx"), Err(DecodeError::Malformed));
    assert_eq!(parse(b"#001\n*\n"), Err(DecodeError::Unsupported));
    // A line of length zero has no marker.
    assert_eq!(parse(b"#\n\n*1\n\n"), Err(DecodeError::Malformed));
    assert_eq!(parse(b"#0\n\n*1\n\n"), Err(DecodeError::Malformed));
}

#[test]
fn any_byte_is_a_tag() {
    for tag in 0..=255u8 {
        let buffer = encode(&[vec![(tag, b"v".to_vec())]]);
        assert_eq!(parse(&buffer), Ok(vec![vec![element(char::from(tag), "v")]]));
    }
    assert_eq!(
        parse(b"#2\n*1\n#2\n&1\n\xe91\nx\n"),
        Ok(vec![vec![element('\u{e9}', "x")]])
    );
    assert_eq!(
        parse(b"#2\n*1\n#2\n&1\n\n1\nx\n"),
        Ok(vec![vec![element('\n', "x")]])
    );
    assert_eq!(
        parse(b"#2\n*1\n#2\n&1\n71\nx\n"),
        Ok(vec![vec![element('7', "x")]])
    );
}

#[test]
fn valid_text_is_kept() {
    let text = "gr\u{fc}\u{df}e \u{4e16}\u{754c} \u{1f980}";
    let buffer = encode(&[vec![(b'+', text.as_bytes().to_vec())]]);
    assert_eq!(parse(&buffer), Ok(vec![vec![element('+', text)]]));
}

#[test]
fn invalid_text_is_replaced() {
    assert_eq!(
        parse(b"#2\n*1\n#2\n&1\n+1\n\xff\n"),
        Ok(vec![vec![element('+', "\u{fffd}")]])
    );
    assert_eq!(
        parse(b"#2\n*1\n#2\n&1\n+4\na\xc3(b\n"),
        Ok(vec![vec![element('+', "a\u{fffd}(b")]])
    );
    // A value that is cut in the middle of a character.
    assert_eq!(
        parse(b"#2\n*1\n#2\n&1\n+2\nA\xe4\n"),
        Ok(vec![vec![element('+', "A\u{fffd}")]])
    );
}

#[test]
fn two_groups_are_unsupported() {
    assert_eq!(
        parse(b"#2\n*2\n#2\n&0\n#2\n&0\n"),
        Err(DecodeError::Unsupported)
    );
    assert_eq!(
        parse(b"#2\n*2\n#2\n&1\n+1\na\n#2\n&2\n+1\nb\n+1\nc\n"),
        Err(DecodeError::Unsupported)
    );
    let twelve: Vec<Vec<(u8, Vec<u8>)>> = (0..12).map(|i| vec![(b'+', vec![b'a'; i])]).collect();
    assert_eq!(parse(&encode(&twelve)), Err(DecodeError::Unsupported));
}

#[test]
fn no_group_is_unsupported() {
    assert_eq!(parse(b"#2\n*0\n"), Err(DecodeError::Unsupported));
    assert_eq!(parse(&encode(&[])), Err(DecodeError::Unsupported));
}

#[test]
fn fewer_groups_than_declared_is_incomplete() {
    assert_eq!(parse(b"#2\n*2\n#2\n&0\n"), Err(DecodeError::Incomplete));
    assert_eq!(parse(b"#2\n*3\n#2\n&0\n#2\n&0\n"), Err(DecodeError::Incomplete));
}

#[test]
fn one_group_more_than_declared_is_read() {
    // The second group is read and then found to be one too many.
    assert_eq!(parse(b"#2\n*1\n#2\n&0\n#2\n&0\n"), Err(DecodeError::Incomplete));
    // A third one is not read any more, so its bytes are left over.
    assert_eq!(
        parse(b"#2\n*1\n#2\n&0\n#2\n&0\n#2\n&0\n"),
        Err(DecodeError::Malformed)
    );
    // With no group declared, one is still read.
    assert_eq!(parse(b"#2\n*0\n#2\n&0\n"), Err(DecodeError::Incomplete));
    // A failure in the group that is one too many is reported.
    assert_eq!(parse(b"#2\n*1\n#2\n&0\n#2\n&x\n"), Err(DecodeError::Malformed));
}

#[test]
fn an_extra_byte_is_malformed() {
    let buffers: [&[u8]; 3] = [
        b"#2\n*1\n#2\n&0\n",
        b"#2\n*1\n#2\n&1\n+2\nhi\n",
        b"#2\n*1\n#2\n&2\n+1\na\n-0\n\n",
    ];
    for whole in buffers {
        assert!(parse(whole).is_ok());
        for extra in 0..=255u8 {
            let mut buffer = whole.to_vec();
            buffer.push(extra);
            assert_eq!(parse(&buffer), Err(DecodeError::Malformed));
        }
    }
}

#[test]
fn more_elements_than_declared_are_malformed() {
    assert_eq!(
        parse(b"#2\n*1\n#2\n&1\n+1\na\n+1\nb\n"),
        Err(DecodeError::Malformed)
    );
}

/// The places of a single-group buffer at which a cut leaves a buffer that
/// still ends on a boundary of the group: right after its header or after one
/// of its elements, with or without the line feed that closes that part.
fn soft_cuts(group: &[(u8, Vec<u8>)]) -> Vec<usize> {
    let mut out = Vec::new();
    encode_count(b'*', 1, &mut out);
    encode_count(b'&', group.len(), &mut out);
    let mut cuts = vec![out.len() - 1, out.len()];
    for (tag, value) in group {
        encode_element(*tag, value, &mut out);
        cuts.push(out.len() - 1);
        cuts.push(out.len());
    }
    cuts
}

#[test]
fn a_cut_buffer_never_decodes_to_the_whole() {
    let group: Vec<(u8, Vec<u8>)> = vec![
        (b'+', b"first".to_vec()),
        (b'!', b"".to_vec()),
        (b':', b"a\nb".to_vec()),
        (b'+', b"0123456789".to_vec()),
    ];
    let whole = encode(&[group.clone()]);
    let expected: Vec<(char, String)> = group
        .iter()
        .map(|(tag, value)| (char::from(*tag), String::from_utf8(value.clone()).unwrap()))
        .collect();
    assert_eq!(parse(&whole), Ok(vec![expected.clone()]));
    let soft = soft_cuts(&group);
    assert_eq!(*soft.last().unwrap(), whole.len());
    for cut in 0..whole.len() {
        let result = parse(&whole[..cut]);
        if soft.contains(&cut) {
            // What is left is a response with fewer elements.
            let kept = (soft.iter().position(|at| *at == cut).unwrap()) / 2;
            assert_eq!(result, Ok(vec![expected[..kept].to_vec()]));
        } else {
            assert!(
                result == Err(DecodeError::Incomplete) || result == Err(DecodeError::Malformed)
            );
        }
    }
}

#[test]
fn cuts_inside_the_parts_of_a_response() {
    // In the length field of the metaframe, or right behind it.
    assert_eq!(parse(b"#00002"), Err(DecodeError::Malformed));
    // Inside the line of the metaframe.
    assert_eq!(parse(b"#0003\n*0"), Err(DecodeError::Incomplete));
    // Before the line feed that closes the metaframe: one group is missing.
    assert_eq!(parse(b"#4\n*001"), Err(DecodeError::Incomplete));
    // Right behind a block marker.
    assert_eq!(parse(b"#2\n*1\n#"), Err(DecodeError::Malformed));
    // In the length field of a group's line.
    assert_eq!(parse(b"#2\n*1\n#2"), Err(DecodeError::Malformed));
    // Inside a group's line.
    assert_eq!(parse(b"#2\n*1\n#2\n&"), Err(DecodeError::Incomplete));
    // Right behind a tag.
    assert_eq!(parse(b"#2\n*1\n#2\n&1\n+"), Err(DecodeError::Incomplete));
    // In the length field of an element.
    assert_eq!(parse(b"#2\n*1\n#2\n&1\n+2"), Err(DecodeError::Incomplete));
    // Right behind the length field of an element with an empty value.
    assert_eq!(parse(b"#2\n*1\n#2\n&1\n+0"), Err(DecodeError::Incomplete));
    // Inside a value.
    assert_eq!(parse(b"#2\n*1\n#2\n&1\n+2\nh"), Err(DecodeError::Incomplete));
    assert_eq!(parse(b"#2\n*1\n#2\n&1\n+2\n"), Err(DecodeError::Incomplete));
}

#[test]
fn soft_cuts_leave_a_shorter_response() {
    // Only the closing line feed of the last element is missing.
    assert_eq!(
        parse(b"#2\n*1\n#2\n&1\n+2\nhi"),
        Ok(vec![vec![element('+', "hi")]])
    );
    // Only the line feed that closes the group's line is missing.
    assert_eq!(parse(b"#2\n*1\n#2\n&0"), Ok(vec![vec![]]));
    // A whole element is missing.
    assert_eq!(
        parse(b"#2\n*1\n#2\n&2\n+2\nhi\n"),
        Ok(vec![vec![element('+', "hi")]])
    );
    assert_eq!(parse(b"#2\n*1\n#2\n&2\n"), Ok(vec![vec![]]));
    // The same in the last of two groups.
    assert_eq!(
        parse(b"#2\n*2\n#2\n&0\n#2\n&1\n"),
        Err(DecodeError::Unsupported)
    );
    // The line feed that closes a metaframe which declares no group.
    assert_eq!(parse(b"#5\n*0000"), Err(DecodeError::Unsupported));
}

#[test]
fn the_closing_bytes_are_not_looked_at() {
    assert_eq!(
        parse(b"#2\n*1x#2\n&1y+2\nhiz"),
        Ok(vec![vec![element('+', "hi")]])
    );
}

#[test]
fn what_an_encoder_writes_comes_back() {
    let groups: Vec<Vec<(u8, Vec<u8>)>> = vec![
        vec![],
        vec![(b'+', b"".to_vec())],
        vec![(b'+', b"hi".to_vec()), (b'!', b"there".to_vec())],
        (0..25).map(|i| (b'a' + i, vec![b'0' + (i % 10); i as usize * 7])).collect(),
    ];
    for group in groups {
        let expected: Vec<(char, String)> = group
            .iter()
            .map(|(tag, value)| (char::from(*tag), String::from_utf8(value.clone()).unwrap()))
            .collect();
        assert_eq!(parse(&encode(&[group])), Ok(vec![expected]));
    }
}

fn with_byte(buffer: &[u8], at: usize, byte: u8) -> Vec<u8> {
    let mut changed = buffer.to_vec();
    assert_eq!(changed[at], b'0');
    changed[at] = byte;
    changed
}

#[test]
fn a_byte_that_is_no_digit_is_refused_in_every_field() {
    //             0123 4567 8 90123 4567 8 9012 34 5
    let whole = b"#04\n*001\n#05\n&0001\n+02\nhi\n";
    assert_eq!(parse(whole), Ok(vec![vec![element('+', "hi")]]));
    // The line length of the metaframe, the group count, the line length of the
    // group, the element count, and the length of the value.
    let places = [1, 5, 10, 14, 20];
    for at in places {
        for byte in 0..=255u8 {
            if byte.is_ascii_digit() {
                continue;
            }
            if byte == b'\n' && (at == 1 || at == 10 || at == 20) {
                // A line feed ends these fields; it is not inside them.
                continue;
            }
            assert_eq!(
                parse(&with_byte(whole, at, byte)),
                Err(DecodeError::Malformed)
            );
        }
    }
    for at in places {
        for byte in [b'/', b':', b' ', b'-', b'+', 0x00, 0x80, 0xb0, 0xb9, 0xff] {
            assert_eq!(
                parse(&with_byte(whole, at, byte)),
                Err(DecodeError::Malformed)
            );
        }
    }
}

#[test]
fn wrong_markers_are_malformed() {
    assert_eq!(parse(b"*2\n*1\n#2\n&0\n"), Err(DecodeError::Malformed));
    assert_eq!(parse(b"#2\n&1\n#2\n&0\n"), Err(DecodeError::Malformed));
    assert_eq!(parse(b"#2\n*1\n&2\n&0\n"), Err(DecodeError::Malformed));
    assert_eq!(parse(b"#2\n*1\n#2\n*0\n"), Err(DecodeError::Malformed));
    assert_eq!(parse(b"#2\n*1\n\n#2\n&0\n"), Err(DecodeError::Malformed));
}

#[test]
fn a_length_beyond_the_buffer_is_incomplete() {
    assert_eq!(parse(b"#10\n*1\n#2\n&0\n"), Err(DecodeError::Incomplete));
    assert_eq!(parse(b"#2\n*1\n#4\n&0\n"), Err(DecodeError::Incomplete));
    assert_eq!(parse(b"#2\n*1\n#2\n&1\n+4\nhi\n"), Err(DecodeError::Incomplete));
}

#[test]
fn fields_too_long_for_the_machine_do_not_wrap_around() {
    // 2^64 + 2 as the length of the metaframe's line.
    assert_eq!(
        parse(b"#18446744073709551618\n*1\n#2\n&0\n"),
        Err(DecodeError::Incomplete)
    );
    // 2^64 + 2 as the length of a value.
    assert_eq!(
        parse(b"#2\n*1\n#2\n&1\n+18446744073709551618\nhi\n"),
        Err(DecodeError::Incomplete)
    );
    // 2^64 + 1 groups declared, one present.
    assert_eq!(
        parse(b"#21\n*18446744073709551617\n#2\n&0\n"),
        Err(DecodeError::Incomplete)
    );
    // 2^64 + 1 elements declared, one present: the buffer ends between two
    // elements.
    assert_eq!(
        parse(b"#2\n*1\n#21\n&18446744073709551617\n+1\na\n"),
        Ok(vec![vec![element('+', "a")]])
    );
    let mut long = b"#2\n*1\n#2\n&1\n+".to_vec();
    long.extend_from_slice(&[b'9'; 300]);
    long.extend_from_slice(b"\nhi\n");
    assert_eq!(parse(&long), Err(DecodeError::Incomplete));
}

#[test]
fn errors_say_what_they_are() {
    assert_eq!(DecodeError::Incomplete.message(), "response is incomplete");
    assert_eq!(DecodeError::Malformed.message(), "response is malformed");
    assert_eq!(
        DecodeError::Unsupported.message(),
        "batched responses are not supported"
    );
    assert_ne!(DecodeError::Incomplete, DecodeError::Malformed);
    assert_ne!(DecodeError::Malformed, DecodeError::Unsupported);
}
