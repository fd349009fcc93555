use hvisor_device_tree_tool::dts::parser::{parse_dt, ParseResult};
use hvisor_device_tree_tool::dts::tree::DTInfo;
use hvisor_device_tree_tool::visitors::interrupts::InterruptsExtractor;
use hvisor_device_tree_tool::visitors::Walker;

const IRQ_SOURCE: &str = "/dts-v1/;

/ {
\tinterrupt-parent = <&gic>;

\tgic: interrupt-controller@8000 {
\t\tcompatible = \"arm,gic-400\";
\t\tinterrupt-controller;
\t\t#interrupt-cells = <3>;
\t\treg = <0x8000 0x1000>;
\t};

\tuart@1000 {
\t\tinterrupts = <0 33 4>, <0 34 4>;
\t};

\tgpio: gpio@2000 {
\t\tinterrupt-controller;
\t\t#interrupt-cells = <2>;
\t\tinterrupts = <0 40 4>;
\t};

\tkey@3000 {
\t\tinterrupt-parent = <&gpio>;
\t\tinterrupts = <5 1>;
\t};

\tcombo@4000 {
\t\tinterrupts-extended = <&gic 0 50 4>, <&gpio 7 2>;
\t};
};
";

const IRQ_EXPECTED: &str = "/uart@1000,uart@1000,3,0x0,0x21,0x4,/interrupt-controller@8000
/uart@1000,uart@1000,3,0x0,0x22,0x4,/interrupt-controller@8000
/gpio@2000,gpio@2000,3,0x0,0x28,0x4,/interrupt-controller@8000
/key@3000,key@3000,2,0x5,0x1,/gpio@2000
/combo@4000,combo@4000,3,0x0,0x32,0x4,/interrupt-controller@8000
/combo@4000,combo@4000,2,0x7,0x2,/gpio@2000
";

const FORWARD_SOURCE: &str = "/dts-v1/;

/ {
\tinterrupt-parent = <0x1>;

\tuart@1000 {
\t\tinterrupts = <0x0 0x21 0x4>;
\t};

\tinterrupt-controller@8000 {
\t\tinterrupt-controller;
\t\t#interrupt-cells = <0x3>;
\t\tphandle = <0x1>;
\t};
};
";

const FORWARD_EXPECTED: &str = "/uart@1000,uart@1000,3,0x0,0x21,0x4,/interrupt-controller@8000
";

fn irq_tree(src: &str) -> DTInfo {
    match parse_dt(src.as_bytes()).expect("Failed to parse DTS") {
        ParseResult::Complete(tree, _) => tree,
        ParseResult::RemainingInput(tree, _, _) => tree,
    }
}

#[test]
fn interrupts_test_test_interrupts() {
    let tree = irq_tree(IRQ_SOURCE);
    let mut extractor = InterruptsExtractor::from_root(&tree.root);
    Walker::walk(&tree.root, "/", &mut extractor);
    assert_eq!(extractor.output().trim(), IRQ_EXPECTED.trim());
}

#[test]
fn test_interrupts_forward_numeric_phandle() {
    let tree = irq_tree(FORWARD_SOURCE);
    let mut extractor = InterruptsExtractor::from_root(&tree.root);
    Walker::walk(&tree.root, "/", &mut extractor);
    assert_eq!(extractor.output().trim(), FORWARD_EXPECTED.trim());
}

#[test]
fn interrupts_forward_numeric_needs_from_root() {
    let tree = irq_tree(FORWARD_SOURCE);
    let mut extractor = InterruptsExtractor::new();
    Walker::walk(&tree.root, "/", &mut extractor);
    assert_eq!(extractor.output(), "");
}

#[test]
fn interrupts_parent_of_nearest_ancestor() {
    let src = "/ {\n\tinterrupt-parent = <&c1>;\n\tc1: ic@1 {\n\t\tinterrupt-controller;\n\t\t#interrupt-cells = <1>;\n\t};\n\tc2: ic@2 {\n\t\tinterrupt-controller;\n\t\t#interrupt-cells = <2>;\n\t};\n\tbus {\n\t\tinterrupt-parent = <&c2>;\n\t\ta {\n\t\t\tinterrupts = <1 2>;\n\t\t};\n\t\tb {\n\t\t\tinterrupt-parent = <&c1>;\n\t\t\tinterrupts = <3>;\n\t\t};\n\t\tc {\n\t\t\tinterrupts = <4 5>;\n\t\t};\n\t};\n\td {\n\t\tinterrupts = <6>;\n\t};\n};\n";
    let tree = irq_tree(src);
    let mut extractor = InterruptsExtractor::from_root(&tree.root);
    Walker::walk(&tree.root, "/", &mut extractor);
    assert_eq!(
        extractor.output(),
        "/bus/a,a,2,0x1,0x2,/ic@2\n/bus/b,b,1,0x3,/ic@1\n/bus/c,c,2,0x4,0x5,/ic@2\n/d,d,1,0x6,/ic@1\n"
    );
}
