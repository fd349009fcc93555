use hvisor_device_tree_tool::dts::parser::{parse_dt, ParseResult};
use hvisor_device_tree_tool::dts::tree::{DTInfo, Data, Node, Property};
use hvisor_device_tree_tool::visitors::filter::{is_disabled, NodeFilter};
use hvisor_device_tree_tool::visitors::writer::DtsWriter;
use hvisor_device_tree_tool::visitors::Walker;

const FILTER_SOURCE: &str = "/dts-v1/;

/ {
\ta {
\t\tstatus = \"okay\";
\t};

\tb {
\t\tstatus = \"disabled\";

\t\tc {
\t\t};
\t};

\td {
\t\te {
\t\t\tstatus = \"disabled\";
\t\t};

\t\tf {
\t\t};
\t};
};
";

const FILTER_EXPECTED: &str = "/dts-v1/;

/ {
\ta {
\t\tstatus = \"okay\";
\t};

\td {
\t\tf {
\t\t};
\t};
};
";

fn filter_tree(src: &str) -> DTInfo {
    match parse_dt(src.as_bytes()).expect("Failed to parse DTS") {
        ParseResult::Complete(tree, _) => tree,
        ParseResult::RemainingInput(tree, _, _) => tree,
    }
}

#[test]
fn filter_test_test_filter() {
    let tree = filter_tree(FILTER_SOURCE);
    let predicate = |node: &Node| -> bool {
        if let Node::Existing { proplist, .. } = node {
            if let Some(Property::Existing {
                val: Some(data), ..
            }) = proplist.get("status")
            {
                for d in data {
                    if let Data::String(s) = d {
                        if s == "disabled" {
                            return true;
                        }
                    }
                }
            }
        }
        false
    };
    let mut filter = NodeFilter::new(predicate);
    Walker::walk(&tree.root, "/", &mut filter);
    let filtered_root = filter.root.expect("Filter should produce a root");

    let mut writer = DtsWriter::new(true);
    Walker::walk(&filtered_root, "/", &mut writer);
    let output = writer.output();
    assert_eq!(output.trim(), FILTER_EXPECTED.trim());
}

#[test]
fn filter_removing_the_root_gives_nothing() {
    let tree = filter_tree("/ {\n\tstatus = \"disabled\";\n\ta {\n\t};\n};\n");
    let mut filter = NodeFilter::new(|n: &Node| is_disabled(n));
    Walker::walk(&tree.root, "/", &mut filter);
    assert!(filter.root.is_none());
}

#[test]
fn filter_is_disabled_matches_any_piece() {
    let tree = filter_tree("/ {\n\ta {\n\t\tstatus = \"okay\", \"disabled\";\n\t};\n\tb {\n\t\tstatus = \"okay\";\n\t};\n};\n");
    if let Node::Existing { children, .. } = &tree.root {
        assert!(is_disabled(&children[0].1));
        assert!(!is_disabled(&children[1].1));
    } else {
        panic!("root is not a node");
    }
}

#[test]
fn filter_twice_removes_nothing_more() {
    let tree = filter_tree(FILTER_SOURCE);
    let mut first = NodeFilter::new(|n: &Node| is_disabled(n));
    Walker::walk(&tree.root, "/", &mut first);
    let once = first.root.expect("Filter should produce a root");
    let mut second = NodeFilter::new(|n: &Node| is_disabled(n));
    Walker::walk(&once, "/", &mut second);
    let twice = second.root.expect("Filter should produce a root");
    assert_eq!(twice, once);
}
