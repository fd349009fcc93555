use hvisor_device_tree_tool::dts::parser::{parse_dt, ParseResult};
use hvisor_device_tree_tool::dts::tree::DTInfo;
use hvisor_device_tree_tool::visitors::writer::DtsWriter;
use hvisor_device_tree_tool::visitors::Walker;

const WRITER_SOURCE: &str = "/dts-v1/;

/ {
\tmodel = \"test\";
\t#address-cells = <1>;

\tcpus {
\t\tcpu0: cpu@0 {
\t\t\treg = <0x0>;
\t\t};
\t};

\tmem {
\t\tbytes = [01 ab];
\t\tnarrow = /bits/ 16 <0x12 0x3456>;
\t\tflag;
\t\tlink = &cpu0;
\t};
};
";

const WRITER_EXPECTED: &str = "/dts-v1/;

/ {
\tmodel = \"test\";
\t#address-cells = <0x1>;

\tcpus {
\t\tcpu0: cpu@0 {
\t\t\treg = <0x0>;
\t\t};
\t};

\tmem {
\t\tbytes = [01 ab];
\t\tnarrow = /bits/ 16 <0x12 0x3456>;
\t\tflag;
\t\tlink = &cpu0;
\t};
};
";

fn writer_tree(src: &str) -> DTInfo {
    match parse_dt(src.as_bytes()).expect("Failed to parse DTS") {
        ParseResult::Complete(tree, _) => tree,
        ParseResult::RemainingInput(tree, _, _) => tree,
    }
}

#[test]
fn writer_test_test_writer() {
    let tree = writer_tree(WRITER_SOURCE);
    let mut writer = DtsWriter::new(true);
    Walker::walk(&tree.root, "/", &mut writer);
    let output = writer.output();
    assert_eq!(output.trim(), WRITER_EXPECTED.trim());
}

#[test]
fn writer_output_parses_back() {
    let tree = writer_tree(WRITER_SOURCE);
    let mut writer = DtsWriter::new(true);
    Walker::walk(&tree.root, "/", &mut writer);
    let first = writer.output();
    let again = writer_tree(&first);
    let mut writer2 = DtsWriter::new(true);
    Walker::walk(&again.root, "/", &mut writer2);
    assert_eq!(writer2.output(), first);
}

#[test]
fn writer_not_root_has_no_header() {
    let tree = writer_tree("/ { a { }; };");
    let mut writer = DtsWriter::new(false);
    Walker::walk(&tree.root, "/", &mut writer);
    assert_eq!(writer.output(), "/ {\n\ta {\n\t};\n};\n");
}
