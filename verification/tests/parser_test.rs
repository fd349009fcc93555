use hvisor_device_tree_tool::dts::parser::{parse_data, parse_item, Item};
use hvisor_device_tree_tool::dts::tree::{Cell, Data, Property};
use hvisor_device_tree_tool::dts::ParseError;

fn parse_prop(input_len: usize, input: &[u8]) -> Result<(&[u8], Property), ParseError> {
    match parse_item(input_len, input) {
        Ok((rem, Item::Prop(p))) => Ok((rem, p)),
        Ok((_, Item::Node(_))) => Err(ParseError::NomError),
        Err(e) => Err(e),
    }
}

#[test]
fn prop_empty() {
    let input = b"empty_prop;";
    assert_eq!(
        parse_prop(input.len(), input),
        Ok((
            &b""[..],
            Property::Existing {
                name: "empty_prop".to_owned(),
                val: None,
                labels: Vec::new(),
                offset: 0,
            }
        ))
    );
}

#[test]
fn prop_cells() {
    let input = b"cell_prop = < 1 2 10 >;";
    assert_eq!(
        parse_prop(input.len(), input),
        Ok((
            &b""[..],
            Property::Existing {
                name: "cell_prop".to_owned(),
                val: Some(vec![Data::Cells(
                    32,
                    vec![Cell::Num(1), Cell::Num(2), Cell::Num(10)]
                )]),
                labels: Vec::new(),
                offset: 0,
            }
        ))
    );
}

#[test]
fn prop_strings() {
    let input = b"string_prop = \"string\", \"string2\";";
    assert_eq!(
        parse_prop(input.len(), input),
        Ok((
            &b""[..],
            Property::Existing {
                name: "string_prop".to_owned(),
                val: Some(vec![
                    Data::String("string".to_owned()),
                    Data::String("string2".to_owned())
                ]),
                labels: Vec::new(),
                offset: 0,
            }
        ))
    );
}

#[test]
fn prop_bytes() {
    let input = b"bytes_prop = [1234 56 78];";
    assert_eq!(
        parse_prop(input.len(), input),
        Ok((
            &b""[..],
            Property::Existing {
                name: "bytes_prop".to_owned(),
                val: Some(vec![Data::ByteArray(vec![0x12, 0x34, 0x56, 0x78])]),
                labels: Vec::new(),
                offset: 0,
            }
        ))
    );
}

#[test]
fn prop_mixed() {
    let input = b"mixed_prop = \"abc\", [1234], <0xa 0xb 0xc>;";
    assert_eq!(
        parse_prop(input.len(), input),
        Ok((
            &b""[..],
            Property::Existing {
                name: "mixed_prop".to_owned(),
                val: Some(vec![
                    Data::String("abc".to_owned()),
                    Data::ByteArray(vec![0x12, 0x34]),
                    Data::Cells(32, vec![Cell::Num(0xa), Cell::Num(0xb), Cell::Num(0xc)])
                ]),
                labels: Vec::new(),
                offset: 0,
            }
        ))
    );
}

#[test]
fn block_comment() {
    let input = b"test_prop /**/ = < 1 2 10 >;";
    assert_eq!(
        parse_prop(input.len(), input),
        Ok((
            &b""[..],
            Property::Existing {
                name: "test_prop".to_owned(),
                val: Some(vec![Data::Cells(
                    32,
                    vec![Cell::Num(1), Cell::Num(2), Cell::Num(10)]
                )]),
                labels: Vec::new(),
                offset: 0,
            }
        ))
    );
}

#[test]
fn line_comment() {
    let input = b"test_prop // stuff\n\t= < 1 2 10 >;";
    assert_eq!(
        parse_prop(input.len(), input),
        Ok((
            &b""[..],
            Property::Existing {
                name: "test_prop".to_owned(),
                val: Some(vec![Data::Cells(
                    32,
                    vec![Cell::Num(1), Cell::Num(2), Cell::Num(10)]
                )]),
                labels: Vec::new(),
                offset: 0,
            }
        ))
    );
}

#[test]
fn data_string_pain() {
    assert_eq!(
        parse_data(b"\"\\x7f\\0stuffstuff\\t\\t\\t\\n\\n\\n\""),
        Ok((
            &b""[..],
            Data::String("\x7f\0stuffstuff\t\t\t\n\n\n".to_owned())
        ))
    );
}

#[test]
fn data_string_empty() {
    assert_eq!(
        parse_data(b"\"\""),
        Ok((&b""[..], Data::String("".to_owned())))
    );
}

#[test]
fn data_cell_sized_8_escapes() {
    assert_eq!(
        parse_data(b"/bits/ 8 <'\\r' 'b' '\\0' '\\'' '\\xff' 0xde>"),
        Ok((
            &b""[..],
            Data::Cells(
                8,
                vec![
                    Cell::Num(b'\r' as u64),
                    Cell::Num(b'b' as u64),
                    Cell::Num(0),
                    Cell::Num(b'\'' as u64),
                    Cell::Num(0xFF),
                    Cell::Num(0xDE)
                ]
            )
        ))
    );
}

#[test]
fn data_cell_sized_16_escapes() {
    assert_eq!(
        parse_data(b"/bits/ 16 <'\\r' 'b' '\\0' '\\'' '\\xff' 0xdead>"),
        Ok((
            &b""[..],
            Data::Cells(
                16,
                vec![
                    Cell::Num(b'\r' as u64),
                    Cell::Num(b'b' as u64),
                    Cell::Num(0),
                    Cell::Num(b'\'' as u64),
                    Cell::Num(0xFF),
                    Cell::Num(0xDEAD)
                ]
            )
        ))
    );
}
