use hvisor_device_tree_tool::dts::parser::{
    escape_c_char, escape_c_string, parse_data, parse_dt, parse_item, Item, ParseResult,
};
use hvisor_device_tree_tool::dts::tree::{Cell, Data, Node, NodeName, Property};
use hvisor_device_tree_tool::dts::ParseError;

#[test]
fn grammar_expressions_evaluate_left_to_right() {
    let (rest, d) = parse_data(
        b"<(1 + 2) (3 * 4) (1 << 4) (10 / 3) (10 % 3) (-1) (~0) (!5) (2 > 1) (5 - 7) 1 + 2 * 3>;",
    )
    .expect("cells");
    assert_eq!(rest, b";");
    assert_eq!(
        d,
        Data::Cells(
            32,
            vec![
                Cell::Num(3),
                Cell::Num(12),
                Cell::Num(16),
                Cell::Num(3),
                Cell::Num(1),
                Cell::Num(u64::MAX),
                Cell::Num(u64::MAX),
                Cell::Num(0),
                Cell::Num(1),
                Cell::Num(u64::MAX - 1),
                Cell::Num(9),
            ]
        )
    );
}

#[test]
fn grammar_integer_forms() {
    let (_, d) = parse_data(b"<010 08 0x10ULL 0X1f 7U 12L>").expect("cells");
    assert_eq!(
        d,
        Data::Cells(
            32,
            vec![
                Cell::Num(8),
                Cell::Num(8),
                Cell::Num(16),
                Cell::Num(31),
                Cell::Num(7),
                Cell::Num(12),
            ]
        )
    );
}

#[test]
fn grammar_division_by_zero_fails() {
    assert_eq!(parse_data(b"<(1 / 0)>"), Err(ParseError::NomError));
    assert_eq!(parse_data(b"<(1 % 0)>"), Err(ParseError::NomError));
}

#[test]
fn grammar_cell_width_limits() {
    assert_eq!(parse_data(b"/bits/ 8 <256>"), Err(ParseError::NomError));
    assert_eq!(parse_data(b"/bits/ 7 <1>"), Err(ParseError::NomError));
    let (_, d) = parse_data(b"/bits/ 8 <(-1)>").expect("a negative byte fits");
    assert_eq!(d, Data::Cells(8, vec![Cell::Num(u64::MAX)]));
    let (_, d) = parse_data(b"/bits/ 64 <0xffffffffffffffff>").expect("64-bit cell");
    assert_eq!(d, Data::Cells(64, vec![Cell::Num(u64::MAX)]));
}

#[test]
fn grammar_references_only_in_32_bit_cells() {
    let (_, d) = parse_data(b"<&lbl &{/soc/uart@1000} 3>").expect("cells");
    assert_eq!(
        d,
        Data::Cells(
            32,
            vec![
                Cell::Ref("lbl".to_owned(), None),
                Cell::Ref("/soc/uart@1000".to_owned(), None),
                Cell::Num(3),
            ]
        )
    );
    assert_eq!(parse_data(b"/bits/ 16 <&lbl>"), Err(ParseError::NomError));
    assert_eq!(
        parse_data(b"&target"),
        Ok((&b""[..], Data::Reference("target".to_owned(), None)))
    );
}

#[test]
fn grammar_byte_strings() {
    assert_eq!(
        parse_data(b"[+f 0A]"),
        Ok((&b""[..], Data::ByteArray(vec![0x0f, 0x0a])))
    );
    assert_eq!(parse_data(b"[]"), Err(ParseError::NomError));
    assert_eq!(parse_data(b"[12 ]"), Err(ParseError::NomError));
}

#[test]
fn grammar_labels_and_deletions() {
    let input = b"l1:l2: p = <1>;";
    match parse_item(input.len(), input) {
        Ok((rest, Item::Prop(Property::Existing { name, labels, offset, .. }))) => {
            assert_eq!(rest, b"");
            assert_eq!(name, "p");
            assert_eq!(labels, vec!["l1".to_owned(), "l2".to_owned()]);
            assert_eq!(offset, 0);
        }
        _ => panic!("expected a property"),
    }
    let input = b"  /delete-node/foo; x";
    assert_eq!(
        parse_item(100, input),
        Ok((
            &b" x"[..],
            Item::Node(Node::Deleted { name: NodeName::Full("foo".to_owned()), offset: 81 })
        ))
    );
    let input = b"/delete-property/bar;";
    assert_eq!(
        parse_item(input.len(), input),
        Ok((&b""[..], Item::Prop(Property::Deleted { name: "bar".to_owned(), offset: 0 })))
    );
    assert_eq!(parse_item(3, b"{};"), Err(ParseError::NomError));
    let input = b"/delete-node/ foo;";
    assert_eq!(parse_item(input.len(), input), Err(ParseError::NomError));
}

#[test]
fn grammar_nested_node_item() {
    let input = b"n: node@1 { a = \"x\"; child { }; b; };";
    match parse_item(input.len(), input) {
        Ok((rest, Item::Node(Node::Existing { name, proplist, children, labels, offset }))) => {
            assert_eq!(rest, b"");
            assert_eq!(name, NodeName::Full("node@1".to_owned()));
            assert_eq!(labels, vec!["n".to_owned()]);
            assert_eq!(offset, 0);
            let keys: Vec<&String> = proplist.keys().collect();
            assert_eq!(keys, vec!["a", "b"]);
            assert_eq!(children.len(), 1);
            assert_eq!(children[0].0, "child");
        }
        _ => panic!("expected a node"),
    }
}

#[test]
fn grammar_duplicate_property_keeps_first_place() {
    let input = b"n { a = <1>; b; a = <2>; };";
    match parse_item(input.len(), input) {
        Ok((_, Item::Node(Node::Existing { proplist, .. }))) => {
            let keys: Vec<&String> = proplist.keys().collect();
            assert_eq!(keys, vec!["a", "b"]);
            match proplist.get("a") {
                Some(Property::Existing { val: Some(v), .. }) => {
                    assert_eq!(v, &vec![Data::Cells(32, vec![Cell::Num(2)])]);
                }
                _ => panic!("expected a value"),
            }
        }
        _ => panic!("expected a node"),
    }
}

#[test]
fn grammar_escapes() {
    assert_eq!(escape_c_char(b"\\x41'"), Ok((&b"'"[..], 0x41)));
    assert_eq!(escape_c_char(b"\\n"), Ok((&b""[..], b'\n')));
    assert_eq!(escape_c_char(b"\\101"), Ok((&b""[..], 65)));
    assert_eq!(escape_c_char(b"a'"), Ok((&b"'"[..], b'a')));
    assert_eq!(escape_c_char(b""), Err(ParseError::NomError));
    assert_eq!(
        escape_c_string(b"ab\\\"c\"rest"),
        Ok((&b"\"rest"[..], "ab\"c".to_owned()))
    );
    assert_eq!(
        escape_c_string("\u{e9}t\u{e9}\"".as_bytes()),
        Ok((&b"\""[..], "\u{e9}t\u{e9}".to_owned()))
    );
    assert_eq!(escape_c_string(b"\\xff\""), Err(ParseError::NomError));
}

#[test]
fn grammar_comments_and_line_markers() {
    let input = b"# 12 \"file.dts\"\n/* block */ p // line\n = <1>;";
    let r = parse_item(input.len(), input).expect("item");
    match r.1 {
        Item::Prop(Property::Existing { name, offset, .. }) => {
            assert_eq!(name, "p");
            assert_eq!(offset, 28);
        }
        _ => panic!("expected a property"),
    }
}

#[test]
fn grammar_whole_source_results() {
    assert!(matches!(parse_dt(b"garbage"), Err(ParseError::NomError)));
    assert!(matches!(parse_dt(b"/ { a = <1>; } }"), Err(ParseError::NomError)));
    match parse_dt(b"/dts-v1/;\n/ { };") {
        Ok(ParseResult::Complete(tree, amends)) => {
            assert_eq!(tree.boot_cpuid, 0);
            assert!(amends.is_empty());
        }
        _ => panic!("expected a complete parse"),
    }
    match parse_dt(b"/ { };\n") {
        Ok(ParseResult::RemainingInput(_, _, rest)) => assert_eq!(rest, b"\n"),
        _ => panic!("expected remaining input"),
    }
    match parse_dt(b"/ { l: a { }; }; &l { x; }; / { y; }; /delete-node/&l;") {
        Ok(ParseResult::Complete(_, amends)) => {
            assert_eq!(amends.len(), 3);
            match &amends[0] {
                Node::Existing { name, .. } => assert_eq!(name, &NodeName::Ref("l".to_owned())),
                _ => panic!("expected an amending node"),
            }
            match &amends[1] {
                Node::Existing { name, .. } => assert_eq!(name, &NodeName::Full("/".to_owned())),
                _ => panic!("expected an amending node"),
            }
            match &amends[2] {
                Node::Deleted { name, .. } => assert_eq!(name, &NodeName::Ref("l".to_owned())),
                _ => panic!("expected a deletion"),
            }
        }
        _ => panic!("expected a complete parse"),
    }
}

#[test]
fn grammar_truncated_sources_are_incomplete() {
    assert!(matches!(parse_dt(b"/ { a = <1>;"), Err(ParseError::IncompleteInput)));
    assert!(matches!(parse_dt(b"/ { a = <1"), Err(ParseError::IncompleteInput)));
    assert!(matches!(parse_dt(b"/ { a = \"x"), Err(ParseError::IncompleteInput)));
    assert!(matches!(parse_dt(b"/ { n { /* c"), Err(ParseError::IncompleteInput)));
    assert!(matches!(parse_dt(b"/ { a ="), Err(ParseError::IncompleteInput)));
    assert!(matches!(parse_dt(b"/dts-v1/;\n"), Err(ParseError::IncompleteInput)));
    assert!(matches!(parse_dt(b""), Err(ParseError::IncompleteInput)));
    assert!(matches!(parse_dt(b"/ { a = <1>; = };"), Err(ParseError::NomError)));
}
