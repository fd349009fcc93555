use hvisor_device_tree_tool::dts::parser::{parse_dt, ParseResult};
use hvisor_device_tree_tool::dts::tree::DTInfo;
use hvisor_device_tree_tool::visitors::dependency::DependencyExtractor;
use hvisor_device_tree_tool::visitors::Walker;

const DEP_SOURCE: &str = "/dts-v1/;

/ {
\tclk: clock-controller@1000 {
\t};

\tpd: power@2000 {
\t};

\tuart@3000 {
\t\tclocks = <&clk 5>;
\t\tpower-domains = <&pd 1>;
\t};

\ti2c@4000 {
\t\tclocks = <&clk 2>, <&missing 1>;
\t\tpinctrl-0 = <&clk>;
\t};
};
";

const DEP_EXPECTED: &str = "/i2c@4000 -> /clock-controller@1000
/i2c@4000 -> label:missing
/uart@3000 -> /clock-controller@1000
/uart@3000 -> /power@2000
";

fn dep_tree(src: &str) -> DTInfo {
    match parse_dt(src.as_bytes()).expect("Failed to parse DTS") {
        ParseResult::Complete(tree, _) => tree,
        ParseResult::RemainingInput(tree, _, _) => tree,
    }
}

#[test]
fn test_dependencies() {
    let tree = dep_tree(DEP_SOURCE);
    let mut extractor = DependencyExtractor::new();
    Walker::walk(&tree.root, "/", &mut extractor);
    assert_eq!(extractor.output().trim(), DEP_EXPECTED.trim());
}

#[test]
fn dependencies_of_a_later_label() {
    let tree = dep_tree("/ {\n\tuser {\n\t\tresets = <&rst 3>;\n\t};\n\trst: reset {\n\t};\n};\n");
    let mut extractor = DependencyExtractor::new();
    Walker::walk(&tree.root, "/", &mut extractor);
    assert_eq!(extractor.output(), "/user -> /reset\n");
}

#[test]
fn dependencies_none() {
    let tree = dep_tree("/ { a { x = <1>; }; };");
    let mut extractor = DependencyExtractor::new();
    Walker::walk(&tree.root, "/", &mut extractor);
    assert_eq!(extractor.output(), "");
}
