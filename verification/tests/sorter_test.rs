use hvisor_device_tree_tool::dts::parser::{parse_dt, ParseResult};
use hvisor_device_tree_tool::dts::tree::{DTInfo, Node};
use hvisor_device_tree_tool::visitors::sorter::SortByReference;
use hvisor_device_tree_tool::visitors::writer::DtsWriter;
use hvisor_device_tree_tool::visitors::Walker;

const SORTER_SOURCE: &str = "/dts-v1/;

/ {
\tconsumer {
\t\tclocks = <&clk 1>;
\t};

\tprovider {
\t\tclk: clock {
\t\t};
\t};
};
";

const SORTER_EXPECTED: &str = "/dts-v1/;

/ {
\tprovider {
\t\tclk: clock {
\t\t};
\t};

\tconsumer {
\t\tclocks = <&clk 0x1>;
\t};
};
";

fn sorter_tree(src: &str) -> DTInfo {
    match parse_dt(src.as_bytes()).expect("Failed to parse DTS") {
        ParseResult::Complete(tree, _) => tree,
        ParseResult::RemainingInput(tree, _, _) => tree,
    }
}

fn child_names(node: &Node) -> Vec<String> {
    match node {
        Node::Existing { children, .. } => children.iter().map(|(k, _)| k.clone()).collect(),
        Node::Deleted { .. } => Vec::new(),
    }
}

#[test]
fn test_sorter() {
    let tree = sorter_tree(SORTER_SOURCE);
    let mut sorter = SortByReference::new();
    Walker::walk(&tree.root, "/", &mut sorter);
    assert_eq!(sorter.cycles(), 0);
    sorter.orders_checked();
    let sorted_root = sorter.root.expect("Sorter should produce a root");

    let mut writer = DtsWriter::new(true);
    Walker::walk(&sorted_root, "/", &mut writer);
    let output_str = writer.output();
    assert_eq!(output_str.trim(), SORTER_EXPECTED.trim());
}

#[test]
fn sorter_keeps_order_on_a_cycle() {
    let tree = sorter_tree(
        "/ {\n\ta: x {\n\t\tclocks = <&b>;\n\t};\n\tb: y {\n\t\tclocks = <&a>;\n\t};\n};\n",
    );
    let mut sorter = SortByReference::new();
    Walker::walk(&tree.root, "/", &mut sorter);
    assert_eq!(sorter.cycles(), 1);
    let root = sorter.root.expect("Sorter should produce a root");
    assert_eq!(child_names(&root), vec!["x".to_owned(), "y".to_owned()]);
}

#[test]
fn sorter_chain_of_three() {
    let tree = sorter_tree(
        "/ {\n\tc {\n\t\tresets = <&rb>;\n\t};\n\tb {\n\t\trb: r {\n\t\t};\n\t\tdmas = <&ra 1>;\n\t};\n\tra: a {\n\t};\n};\n",
    );
    let mut sorter = SortByReference::new();
    Walker::walk(&tree.root, "/", &mut sorter);
    let root = sorter.root.expect("Sorter should produce a root");
    assert_eq!(child_names(&root), vec!["a".to_owned(), "b".to_owned(), "c".to_owned()]);
}
