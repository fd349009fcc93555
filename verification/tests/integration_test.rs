use hvisor_device_tree_tool::dts::parser::{parse_dt, ParseResult};
use hvisor_device_tree_tool::dts::tree::{DTInfo, Data, Node, Property};
use hvisor_device_tree_tool::visitors::filter::NodeFilter;
use hvisor_device_tree_tool::visitors::interrupts::InterruptsExtractor;
use hvisor_device_tree_tool::visitors::reg_extractor::RegExtractor;
use hvisor_device_tree_tool::visitors::writer::DtsWriter;
use hvisor_device_tree_tool::visitors::Walker;

const BOARD_SOURCE: &str = "/dts-v1/;

/memreserve/ 0x10000000 0x4000;

/ {
\tcompatible = \"vendor,board\";
\t#address-cells = <1>;
\t#size-cells = <1>;
\tinterrupt-parent = <&intc>;

\tintc: interrupt-controller@f000 {
\t\tinterrupt-controller;
\t\t#interrupt-cells = <2>;
\t\treg = <0xf000 0x100>;
\t};

\tuart0: serial@1000 {
\t\treg = <0x1000 0x100>;
\t\tinterrupts = <5 4>;
\t\tstatus = \"okay\";
\t};

\tserial@2000 {
\t\treg = <0x2000 0x100>;
\t\tinterrupts = <6 4>;
\t\tstatus = \"disabled\";
\t};
};
";

fn board_tree(src: &str) -> DTInfo {
    match parse_dt(src.as_bytes()).expect("Failed to parse DTS") {
        ParseResult::Complete(tree, _) => tree,
        ParseResult::RemainingInput(tree, _, _) => tree,
    }
}

#[test]
fn integration_test_test_reg_extractor() {
    let tree = board_tree(BOARD_SOURCE);
    let mut extractor = RegExtractor::new();
    Walker::walk(&tree.root, "/", &mut extractor);
    let expected = "/interrupt-controller@f000,0xf000,0x100
/serial@1000,0x1000,0x100
/serial@2000,0x2000,0x100
";
    assert_eq!(extractor.output().trim(), expected.trim());
}

#[test]
fn integration_test_test_interrupts() {
    let tree = board_tree(BOARD_SOURCE);
    let mut extractor = InterruptsExtractor::new();
    Walker::walk(&tree.root, "/", &mut extractor);
    let expected = "/serial@1000,serial@1000,2,0x5,0x4,/interrupt-controller@f000
/serial@2000,serial@2000,2,0x6,0x4,/interrupt-controller@f000
";
    assert_eq!(extractor.output().trim(), expected.trim());
}

#[test]
fn integration_test_test_writer() {
    let tree = board_tree(BOARD_SOURCE);
    let mut writer = DtsWriter::new(true);
    Walker::walk(&tree.root, "/", &mut writer);
    let expected = "/dts-v1/;

/ {
\tcompatible = \"vendor,board\";
\t#address-cells = <0x1>;
\t#size-cells = <0x1>;
\tinterrupt-parent = <&intc>;

\tintc: interrupt-controller@f000 {
\t\tinterrupt-controller;
\t\t#interrupt-cells = <0x2>;
\t\treg = <0xf000 0x100>;
\t};

\tuart0: serial@1000 {
\t\treg = <0x1000 0x100>;
\t\tinterrupts = <0x5 0x4>;
\t\tstatus = \"okay\";
\t};

\tserial@2000 {
\t\treg = <0x2000 0x100>;
\t\tinterrupts = <0x6 0x4>;
\t\tstatus = \"disabled\";
\t};
};
";
    assert_eq!(writer.output().trim(), expected.trim());
    assert_eq!(tree.reserve_info.len(), 1);
    assert_eq!(tree.reserve_info[0].address, 0x10000000);
    assert_eq!(tree.reserve_info[0].size, 0x4000);
}

#[test]
fn integration_test_test_filter() {
    let tree = board_tree(BOARD_SOURCE);
    let predicate = |node: &Node| -> bool {
        if let Node::Existing { proplist, .. } = node {
            if let Some(Property::Existing {
                val: Some(data), ..
            }) = proplist.get("status")
            {
                for d in data {
                    if let Data::String(s) = d {
                        if s == "disabled" {
                            return true;
                        }
                    }
                }
            }
        }
        false
    };
    let mut filter = NodeFilter::new(predicate);
    Walker::walk(&tree.root, "/", &mut filter);
    let filtered_root = filter.root.expect("Filter should produce a root");
    let mut writer = DtsWriter::new(true);
    Walker::walk(&filtered_root, "/", &mut writer);
    let expected = "/dts-v1/;

/ {
\tcompatible = \"vendor,board\";
\t#address-cells = <0x1>;
\t#size-cells = <0x1>;
\tinterrupt-parent = <&intc>;

\tintc: interrupt-controller@f000 {
\t\tinterrupt-controller;
\t\t#interrupt-cells = <0x2>;
\t\treg = <0xf000 0x100>;
\t};

\tuart0: serial@1000 {
\t\treg = <0x1000 0x100>;
\t\tinterrupts = <0x5 0x4>;
\t\tstatus = \"okay\";
\t};
};
";
    assert_eq!(writer.output().trim(), expected.trim());
}
