use hvisor_device_tree_tool::dts::parser::{parse_dt, ParseResult};
use hvisor_device_tree_tool::dts::tree::DTInfo;
use hvisor_device_tree_tool::visitors::reg_extractor::RegExtractor;
use hvisor_device_tree_tool::visitors::Walker;

const REG_SOURCE: &str = "/dts-v1/;

/ {
\t#address-cells = <2>;
\t#size-cells = <2>;

\tmemory@40000000 {
\t\tdevice_type = \"memory\";
\t\treg = <0x0 0x40000000 0x0 0x80000000>;
\t};

\tsoc {
\t\t#address-cells = <1>;
\t\t#size-cells = <1>;

\t\tserial@1000 {
\t\t\treg = <0x1000 0x100>, <0x2000 0x10>;
\t\t};
\t};
};
";

const REG_EXPECTED: &str = "/memory@40000000,0x40000000,0x80000000
/soc/serial@1000,0x1000,0x100
/soc/serial@1000,0x2000,0x10
";

fn reg_tree(src: &str) -> DTInfo {
    match parse_dt(src.as_bytes()).expect("Failed to parse DTS") {
        ParseResult::Complete(tree, _) => tree,
        ParseResult::RemainingInput(tree, _, _) => tree,
    }
}

#[test]
fn reg_extractor_test_test_reg_extractor() {
    let tree = reg_tree(REG_SOURCE);
    let mut extractor = RegExtractor::new();
    Walker::walk(&tree.root, "/", &mut extractor);
    assert_eq!(extractor.output().trim(), REG_EXPECTED.trim());
}

#[test]
fn reg_zero_size_cells() {
    let tree = reg_tree("/ {\n\t#size-cells = <0>;\n\tcpu@1 {\n\t\treg = <0x1>;\n\t};\n};\n");
    let mut extractor = RegExtractor::new();
    Walker::walk(&tree.root, "/", &mut extractor);
    assert_eq!(extractor.output(), "/cpu@1,0x1,\n");
}

#[test]
fn reg_incomplete_chunk_is_dropped() {
    let tree = reg_tree("/ {\n\tdev {\n\t\treg = <0x10 0x20 0x30>;\n\t};\n};\n");
    let mut extractor = RegExtractor::new();
    Walker::walk(&tree.root, "/", &mut extractor);
    assert_eq!(extractor.output(), "/dev,0x10,0x20\n");
}

#[test]
fn reg_two_cell_address_joins_words() {
    let tree = reg_tree(
        "/ {\n\t#address-cells = <2>;\n\tdev {\n\t\treg = <0x1 0x2 0x30>;\n\t};\n};\n",
    );
    let mut extractor = RegExtractor::new();
    Walker::walk(&tree.root, "/", &mut extractor);
    assert_eq!(extractor.output(), "/dev,0x100000002,0x30\n");
}
