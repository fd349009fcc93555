use hvisor_device_tree_tool::dts::parser::{parse_dt, ParseResult};
use hvisor_device_tree_tool::dts::tree::DTInfo;
use hvisor_device_tree_tool::visitors::device_pinctrl::DevicePinctrlExtractor;
use hvisor_device_tree_tool::visitors::Walker;

const DEVICE_PINCTRL_SOURCE: &str = "/dts-v1/;

/ {
\taliases {
\t\tgpio0 = &gpio0;
\t\tgpio1 = &gpio1;
\t};

\tgpio0: gpio@1000 {
\t};

\tgpio1: gpio@2000 {
\t};

\tpinctrl {
\t\tuart0_xfer: uart0-xfer {
\t\t\trockchip,pins = <0 12 2 &pcfg_pull_up>;
\t\t};
\t};

\tserial@3000 {
\t\tpinctrl-0 = <&uart0_xfer>;
\t\treset-gpios = <&gpio1 5 1>;
\t};
};
";

const DEVICE_PINCTRL_EXPECTED: &str = "/serial@3000,/pinctrl/uart0-xfer,0,12,2,pcfg_pull_up
/serial@3000,reset-gpios,1,5,0,0x1
";

fn device_tree(src: &str) -> DTInfo {
    match parse_dt(src.as_bytes()).expect("Failed to parse DTS") {
        ParseResult::Complete(tree, _) => tree,
        ParseResult::RemainingInput(tree, _, _) => tree,
    }
}

#[test]
fn test_device_pinctrl() {
    let tree = device_tree(DEVICE_PINCTRL_SOURCE);
    let mut extractor = DevicePinctrlExtractor::new(&tree);
    Walker::walk(&tree.root, "/", &mut extractor);
    assert_eq!(extractor.output().trim(), DEVICE_PINCTRL_EXPECTED.trim());
}

#[test]
fn device_pinctrl_gpio_without_flags() {
    let tree = device_tree(
        "/ {\n\taliases {\n\t\tgpio2 = &gp;\n\t};\n\tgp: gpio {\n\t};\n\tled {\n\t\tsnps,reset-gpio = <&gp 9>;\n\t};\n};\n",
    );
    let mut extractor = DevicePinctrlExtractor::new(&tree);
    Walker::walk(&tree.root, "/", &mut extractor);
    assert_eq!(extractor.output(), "/led,snps_reset-gpio,2,9,0,0x0\n");
}
