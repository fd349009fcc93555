use hvisor_device_tree_tool::dts::parser::{parse_dt, ParseResult};
use hvisor_device_tree_tool::dts::tree::{Cell, DTInfo, Data};
use hvisor_device_tree_tool::visitors::pinctrl::PinctrlExtractor;
use hvisor_device_tree_tool::visitors::Walker;

const PINCTRL_SOURCE: &str = "/dts-v1/;

/ {
\tpinctrl {
\t\tcompatible = \"rockchip,rk3588-pinctrl\";

\t\tuart0 {
\t\t\tuart0_xfer: uart0-xfer {
\t\t\t\trockchip,pins = <0 12 2 &pcfg_pull_up>, <0 13 2 &pcfg_pull_none>;
\t\t\t};
\t\t};

\t\ti2c0 {
\t\t\ti2c0_xfer: i2c0-xfer {
\t\t\t\trockchip,pins = <1 4 3 0x10>;
\t\t\t};
\t\t};

\t\tempty {
\t\t};
\t};
};
";

const PINCTRL_EXPECTED: &str = "/pinctrl/uart0,1
/pinctrl/uart0/uart0-xfer,2
gpio0,12,2,pcfg_pull_up
gpio0,13,2,pcfg_pull_none
/pinctrl/i2c0,1
/pinctrl/i2c0/i2c0-xfer,1
gpio1,4,3,0x10
";

fn pinctrl_tree(src: &str) -> DTInfo {
    match parse_dt(src.as_bytes()).expect("Failed to parse DTS") {
        ParseResult::Complete(tree, _) => tree,
        ParseResult::RemainingInput(tree, _, _) => tree,
    }
}

#[test]
fn test_pinctrl() {
    let tree = pinctrl_tree(PINCTRL_SOURCE);
    let mut extractor = PinctrlExtractor::new();
    Walker::walk(&tree.root, "/", &mut extractor);
    assert_eq!(extractor.output().trim(), PINCTRL_EXPECTED.trim());
}

#[test]
fn pinctrl_parse_rockchip_pins_chunks() {
    let data = vec![
        Data::Cells(32, vec![Cell::Num(1), Cell::Num(2), Cell::Num(3)]),
        Data::Cells(32, vec![Cell::Ref("cfg".to_owned(), None), Cell::Num(9)]),
    ];
    let pins = PinctrlExtractor::parse_rockchip_pins(&data);
    assert_eq!(pins.len(), 1);
    assert_eq!(pins[0].bank, 1);
    assert_eq!(pins[0].pin, 2);
    assert_eq!(pins[0].mux, 3);
    assert_eq!(pins[0].config, "cfg");
}

#[test]
fn pinctrl_by_node_name() {
    let tree = pinctrl_tree(
        "/ {\n\tpinctrl {\n\t\tdev {\n\t\t\tgrp {\n\t\t\t\trockchip,pins = <2 1 0 0x0>;\n\t\t\t};\n\t\t};\n\t};\n};\n",
    );
    let mut extractor = PinctrlExtractor::new();
    Walker::walk(&tree.root, "/", &mut extractor);
    assert_eq!(extractor.output(), "/pinctrl/dev,1\n/pinctrl/dev/grp,1\ngpio2,1,0,0x0\n");
}

#[test]
fn pinctrl_parse_rockchip_pins_concatenates() {
    let d1 = vec![Data::Cells(32, vec![Cell::Num(1), Cell::Num(2), Cell::Num(3), Cell::Num(4)])];
    let d2 = vec![
        Data::String("skip".to_owned()),
        Data::Cells(32, vec![Cell::Num(5), Cell::Num(6), Cell::Num(7), Cell::Ref("c".to_owned(), None)]),
    ];
    let mut both = d1.clone();
    both.extend(d2.clone());
    let together = PinctrlExtractor::parse_rockchip_pins(&both);
    let apart1 = PinctrlExtractor::parse_rockchip_pins(&d1);
    let apart2 = PinctrlExtractor::parse_rockchip_pins(&d2);
    assert_eq!(together.len(), 2);
    assert_eq!(apart1.len() + apart2.len(), 2);
    assert_eq!(together[0].bank, apart1[0].bank);
    assert_eq!(together[1].config, apart2[0].config);
    assert_eq!(together[1].config, "c");
}
