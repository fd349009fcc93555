//! Reordering of sibling nodes so that a node comes after the siblings whose
//! subtrees hold the labels it depends on.

use crate::dts::tree::{
    cells_view, children_insert, children_view, datas_view, entries_insert, find_key,
    lemma_children_view, lemma_find_key, prop_entries, prop_map_get_index, prop_map_len, nodes_view,
    strip_children, with_children, Cell, CellV, Data, DataV, Node, NodeV, Property, PropertyV,
};
use crate::dts::tree::keys_unique;
use crate::strmap::StrMap;
use crate::text::{str_eq, strings_view};
use crate::visitors::{walk_children, walk_spec, Visitor};
use petgraph::algo::toposort;
use petgraph::graph::{DiGraph, NodeIndex};
use vstd::prelude::*;

verus! {

// ---------------------------------------------------------------------------
// Topological sorting (petgraph)
// ---------------------------------------------------------------------------

/// The result of `petgraph::algo::toposort` on the graph with nodes
/// `0..n` and the edges `edges` added in order.
pub uninterp spec fn toposort_result(n: nat, edges: Seq<(usize, usize)>) -> Option<Seq<usize>>;

/// `o` lists each of `0..n` once, and the source of every edge before its target.
pub open spec fn is_topo_order(n: nat, edges: Seq<(usize, usize)>, o: Seq<usize>) -> bool {
    &&& o.len() == n
    &&& forall|i: int| 0 <= i < n ==> #[trigger] o[i] < n
    &&& forall|i: int, j: int| 0 <= i < n && 0 <= j < n && i != j ==> o[i] != o[j]
    &&& forall|k: int, a: int, b: int|
        #![trigger edges[k], o[a], o[b]]
        0 <= k < edges.len() && 0 <= a < n && 0 <= b < n && o[a] == edges[k].0 && o[b]
            == edges[k].1 ==> a < b
}

/// Builds the directed graph with nodes `0..n` and `edges` (added in order)
/// and runs `petgraph::algo::toposort` on it. The result is named by
/// `toposort_result`; as petgraph documents, it is an order of all nodes in
/// which every node comes before its successors, or `None` when the graph
/// has a cycle (so that no such order exists).
#[verifier::external_body]
fn toposort_indices(n: usize, edges: &Vec<(usize, usize)>) -> (r: Option<Vec<usize>>)
    requires
        n < 0xffff_ffff,
        edges.len() < 0xffff_ffff,
        forall|k: int| 0 <= k < edges.len() ==> #[trigger] edges[k].0 < n && edges[k].1 < n,
    ensures
        match r {
            Some(o) => toposort_result(n as nat, edges@) == Some(o@) && is_topo_order(
                n as nat,
                edges@,
                o@,
            ),
            None => toposort_result(n as nat, edges@) is None && forall|o: Seq<usize>|
                !is_topo_order(n as nat, edges@, o),
        },
{
    let mut graph = DiGraph::<(), ()>::with_capacity(n, edges.len());
    for _ in 0..n {
        graph.add_node(());
    }
    for &(a, b) in edges.iter() {
        graph.add_edge(NodeIndex::new(a), NodeIndex::new(b), ());
    }
    match toposort(&graph, None) {
        Ok(order) => Some(order.iter().map(|x| x.index()).collect()),
        Err(_) => None,
    }
}

// ---------------------------------------------------------------------------
// Specifications
// ---------------------------------------------------------------------------

/// The properties whose references are dependencies.
pub open spec fn dep_prop_names() -> Seq<Seq<char>> {
    seq![
        "clocks"@,
        "interrupt-parent"@,
        "power-domains"@,
        "phys"@,
        "resets"@,
        "dmas"@,
        "iommus"@,
        "mboxes"@,
        "interconnects"@,
    ]
}

/// The labels referenced by a list of cells.
pub open spec fn cell_refs(c: Seq<CellV>) -> Seq<Seq<char>>
    decreases c.len(),
{
    if c.len() == 0 {
        Seq::empty()
    } else {
        cell_refs(c.drop_last()) + match c.last() {
            CellV::Ref(l, _) => seq![l],
            CellV::Num(_) => Seq::empty(),
        }
    }
}

/// The labels referenced by property data: references and references among cells.
pub open spec fn data_refs(d: Seq<DataV>) -> Seq<Seq<char>>
    decreases d.len(),
{
    if d.len() == 0 {
        Seq::empty()
    } else {
        data_refs(d.drop_last()) + match d.last() {
            DataV::Reference(l, _) => seq![l],
            DataV::Cells(_, c) => cell_refs(c),
            _ => Seq::empty(),
        }
    }
}

/// The labels referenced by the dependency properties of a property list,
/// in list order.
pub open spec fn props_deps(props: Seq<(Seq<char>, PropertyV)>) -> Seq<Seq<char>>
    decreases props.len(),
{
    if props.len() == 0 {
        Seq::empty()
    } else {
        props_deps(props.drop_last()) + if dep_prop_names().contains(props.last().0) {
            match props.last().1 {
                PropertyV::Existing { val: Some(d), .. } => data_refs(d),
                _ => Seq::empty(),
            }
        } else {
            Seq::empty()
        }
    }
}

/// The labels a node depends on.
pub open spec fn node_deps(n: NodeV) -> Seq<Seq<char>> {
    props_deps(n.props())
}

/// The labels of a node and of everything under it, in depth-first order.
pub open spec fn labels_rec(n: NodeV) -> Seq<Seq<char>>
    decreases n, 0nat,
{
    match n {
        NodeV::Existing { labels, children, .. } => labels + labels_rec_children(children, 0),
        NodeV::Deleted { .. } => Seq::empty(),
    }
}

/// `labels_rec` of `children[i..]`, concatenated.
pub open spec fn labels_rec_children(children: Seq<(Seq<char>, NodeV)>, i: int) -> Seq<Seq<char>>
    decreases children, children.len() - i,
{
    if 0 <= i < children.len() {
        labels_rec(children[i].1) + labels_rec_children(children, i + 1)
    } else {
        Seq::empty()
    }
}

/// Maps each label of `labels` to `idx`.
pub open spec fn insert_labels(m: Map<Seq<char>, usize>, labels: Seq<Seq<char>>, idx: usize) -> Map<
    Seq<char>,
    usize,
>
    decreases labels.len(),
{
    if labels.len() == 0 {
        m
    } else {
        insert_labels(m, labels.drop_last(), idx).insert(labels.last(), idx)
    }
}

/// Maps every label found under a child to that child's position (a later
/// child wins).
pub open spec fn label_index(children: Seq<(Seq<char>, NodeV)>) -> Map<Seq<char>, usize>
    decreases children.len(),
{
    if children.len() == 0 {
        Map::empty()
    } else {
        insert_labels(
            label_index(children.drop_last()),
            labels_rec(children.last().1),
            (children.len() - 1) as usize,
        )
    }
}

/// `es` with `e` appended unless already present.
pub open spec fn push_new(es: Seq<(usize, usize)>, e: (usize, usize)) -> Seq<(usize, usize)> {
    if es.contains(e) {
        es
    } else {
        es.push(e)
    }
}

/// The edges `j -> i` for each dependency of child `i` on a label under a
/// different child `j`.
pub open spec fn add_edges(
    es: Seq<(usize, usize)>,
    i: usize,
    deps: Seq<Seq<char>>,
    lm: Map<Seq<char>, usize>,
) -> Seq<(usize, usize)>
    decreases deps.len(),
{
    if deps.len() == 0 {
        es
    } else {
        let prev = add_edges(es, i, deps.drop_last(), lm);
        let d = deps.last();
        if lm.contains_key(d) && lm[d] != i {
            push_new(prev, (lm[d], i))
        } else {
            prev
        }
    }
}

/// The dependency edges among `children`, each once, in order of discovery.
pub open spec fn all_edges(children: Seq<(Seq<char>, NodeV)>, lm: Map<Seq<char>, usize>) -> Seq<
    (usize, usize),
>
    decreases children.len(),
{
    if children.len() == 0 {
        Seq::empty()
    } else {
        add_edges(
            all_edges(children.drop_last(), lm),
            (children.len() - 1) as usize,
            node_deps(children.last().1),
            lm,
        )
    }
}

/// The children listed in `order`, inserted in turn.
pub open spec fn insert_order(children: Seq<(Seq<char>, NodeV)>, order: Seq<usize>) -> Seq<
    (Seq<char>, NodeV),
>
    decreases order.len(),
{
    if order.len() == 0 {
        Seq::empty()
    } else {
        let c = children[order.last() as int];
        entries_insert(insert_order(children, order.drop_last()), c.0, c.1)
    }
}

/// `m` followed by the entries of `children` whose key `m` lacks.
pub open spec fn complete(m: Seq<(Seq<char>, NodeV)>, children: Seq<(Seq<char>, NodeV)>) -> Seq<
    (Seq<char>, NodeV),
>
    decreases children.len(),
{
    if children.len() == 0 {
        m
    } else {
        let m1 = complete(m, children.drop_last());
        if find_key(m1, children.last().0) is None {
            m1.push(children.last())
        } else {
            m1
        }
    }
}

/// The dependencies among `children` form a cycle, so that they keep their
/// order (petgraph found no topological order; where the sort was checked,
/// none exists, see `lemma_checked_list_ordered`).
pub open spec fn has_cycle(children: Seq<(Seq<char>, NodeV)>) -> bool {
    let es = all_edges(children, label_index(children));
    children.len() < 0xffff_ffff && es.len() < 0xffff_ffff && toposort_result(children.len(), es)
        is None
}

/// The graph of `children` is within petgraph's limits.
pub open spec fn in_limits(children: Seq<(Seq<char>, NodeV)>) -> bool {
    children.len() < 0xffff_ffff && all_edges(children, label_index(children)).len() < 0xffff_ffff
}

/// What petgraph gives for the graph of `children` is a topological order
/// where it gives one, and it gives none only where no topological order
/// exists (as its documentation says, and as the call that sorted `children`
/// showed).
pub open spec fn order_checked(children: Seq<(Seq<char>, NodeV)>) -> bool {
    let es = all_edges(children, label_index(children));
    in_limits(children) ==> match toposort_result(children.len(), es) {
        Some(o) => is_topo_order(children.len(), es, o),
        None => forall|o: Seq<usize>| !is_topo_order(children.len(), es, o),
    }
}

/// The dependency graph of `children` has a topological order (no cycle).
pub open spec fn acyclic(children: Seq<(Seq<char>, NodeV)>) -> bool {
    exists|o: Seq<usize>|
        is_topo_order(children.len(), all_edges(children, label_index(children)), o)
}

/// The children in topological order of their dependencies, or unchanged
/// when there is a cycle (or too many of them for the graph).
pub open spec fn sorted_children(children: Seq<(Seq<char>, NodeV)>) -> Seq<(Seq<char>, NodeV)> {
    let es = all_edges(children, label_index(children));
    if children.len() >= 0xffff_ffff || es.len() >= 0xffff_ffff {
        children
    } else {
        match toposort_result(children.len(), es) {
            Some(o) => complete(insert_order(children, o), children),
            None => children,
        }
    }
}

/// The state of a `SortByReference` as seen by specifications.
pub struct SortByReferenceV {
    pub stack: Seq<NodeV>,
    pub root: Option<NodeV>,
    /// How many sorts met a cycle and kept the original order.
    pub cycles: usize,
    /// The children lists sorted so far.
    pub checked: Set<Seq<(Seq<char>, NodeV)>>,
}

pub struct SortByReference {
    stack: Vec<Node>,
    pub root: Option<Node>,
    cycles: usize,
    checked: Checked,
}

/// Children lists that were sorted, each checked: petgraph gave a
/// topological order for it, or found that none exists.
struct Checked {
    lists: Ghost<Set<Seq<(Seq<char>, NodeV)>>>,
}

impl Checked {
    #[verifier::type_invariant]
    spec fn inv(self) -> bool {
        forall|c: Seq<(Seq<char>, NodeV)>| self.lists@.contains(c) ==> order_checked(c)
    }
}

impl View for SortByReference {
    type V = SortByReferenceV;

    closed spec fn view(&self) -> SortByReferenceV {
        SortByReferenceV {
            stack: nodes_view(self.stack@),
            root: match self.root {
                Some(r) => Some(r@),
                None => None,
            },
            cycles: self.cycles,
            checked: self.checked.lists@,
        }
    }
}

/// Whether `name` is one of the dependency properties.
pub fn is_dep_prop(name: &str) -> (r: bool)
    ensures
        r == dep_prop_names().contains(name@),
{
    let r = str_eq(name, "clocks") || str_eq(name, "interrupt-parent") || str_eq(
        name,
        "power-domains",
    ) || str_eq(name, "phys") || str_eq(name, "resets") || str_eq(name, "dmas") || str_eq(
        name,
        "iommus",
    ) || str_eq(name, "mboxes") || str_eq(name, "interconnects");
    proof {
        let d = dep_prop_names();
        if r {
            if name@ == "clocks"@ {
                assert(d[0] == name@);
            } else if name@ == "interrupt-parent"@ {
                assert(d[1] == name@);
            } else if name@ == "power-domains"@ {
                assert(d[2] == name@);
            } else if name@ == "phys"@ {
                assert(d[3] == name@);
            } else if name@ == "resets"@ {
                assert(d[4] == name@);
            } else if name@ == "dmas"@ {
                assert(d[5] == name@);
            } else if name@ == "iommus"@ {
                assert(d[6] == name@);
            } else if name@ == "mboxes"@ {
                assert(d[7] == name@);
            } else {
                assert(d[8] == name@);
            }
        } else {
            assert forall|i: int| 0 <= i < d.len() implies d[i] != name@ by {}
        }
    }
    r
}

/// Appends copies of the labels referenced by `data` to `out`.
pub fn push_data_refs(data: &Vec<Data>, out: &mut Vec<String>)
    ensures
        strings_view(final(out)@) == strings_view(old(out)@) + data_refs(datas_view(data@)),
{
    let ghost base = strings_view(out@);
    let ghost dv = datas_view(data@);
    let mut i: usize = 0;
    while i < data.len()
        invariant
            i <= data.len(),
            dv == datas_view(data@),
            strings_view(out@) == base + data_refs(dv.subrange(0, i as int)),
        decreases data.len() - i,
    {
        proof {
            assert(dv.subrange(0, i + 1).drop_last() =~= dv.subrange(0, i as int));
            assert(dv.subrange(0, i + 1).last() == data@[i as int]@);
        }
        let ghost before = strings_view(out@);
        match &data[i] {
            Data::Reference(label, _) => {
                let ghost old_out = out@;
                out.push(label.clone());
                proof {
                    assert(strings_view(out@) =~= strings_view(old_out).push(label@));
                    assert(strings_view(out@) =~= base + data_refs(dv.subrange(0, i + 1)));
                }
            },
            Data::Cells(_, cells) => {
                let ghost cw = cells_view(cells@);
                let mut j: usize = 0;
                while j < cells.len()
                    invariant
                        j <= cells.len(),
                        cw == cells_view(cells@),
                        strings_view(out@) == before + cell_refs(cw.subrange(0, j as int)),
                    decreases cells.len() - j,
                {
                    proof {
                        assert(cw.subrange(0, j + 1).drop_last() =~= cw.subrange(0, j as int));
                        assert(cw.subrange(0, j + 1).last() == cells@[j as int]@);
                    }
                    if let Cell::Ref(label, _) = &cells[j] {
                        let ghost old_out = out@;
                        out.push(label.clone());
                        proof {
                            assert(strings_view(out@) =~= strings_view(old_out).push(label@));
                        }
                    }
                    proof {
                        assert(strings_view(out@) =~= before + cell_refs(cw.subrange(0, j + 1)));
                    }
                    j = j + 1;
                }
                proof {
                    assert(cw.subrange(0, cells.len() as int) =~= cw);
                    assert(strings_view(out@) =~= base + data_refs(dv.subrange(0, i + 1)));
                }
            },
            _ => {
                proof {
                    assert(strings_view(out@) =~= base + data_refs(dv.subrange(0, i + 1)));
                }
            },
        }
        i = i + 1;
    }
    proof {
        assert(dv.subrange(0, data.len() as int) =~= dv);
    }
}

proof fn lemma_insert_labels_bound(m: Map<Seq<char>, usize>, labels: Seq<Seq<char>>, idx: usize, n: usize)
    requires
        idx < n,
        forall|k: Seq<char>| m.contains_key(k) ==> m[k] < n,
    ensures
        forall|k: Seq<char>| #[trigger] insert_labels(m, labels, idx).contains_key(k) ==> insert_labels(
            m,
            labels,
            idx,
        )[k] < n,
    decreases labels.len(),
{
    if labels.len() > 0 {
        lemma_insert_labels_bound(m, labels.drop_last(), idx, n);
        let prev = insert_labels(m, labels.drop_last(), idx);
        assert forall|k: Seq<char>| #[trigger] insert_labels(m, labels, idx).contains_key(k) implies insert_labels(
            m,
            labels,
            idx,
        )[k] < n by {
            if k != labels.last() {
                assert(prev.contains_key(k));
            }
        }
    }
}

impl SortByReference {
    /// How many sorts met a cycle among siblings and kept their order (each
    /// is worth a warning).
    pub fn cycles(&self) -> (r: usize)
        ensures
            r == self@.cycles,
    {
        self.cycles
    }

    /// Every children list this sorter sorted was checked: petgraph gave a
    /// topological order for it, or found that none exists.
    pub fn orders_checked(&self)
        ensures
            forall|c: Seq<(Seq<char>, NodeV)>| self@.checked.contains(c) ==> order_checked(c),
    {
        proof {
            use_type_invariant(&self.checked);
        }
    }

    /// The sorted tree, once the walk has left the root.
    pub fn root(&self) -> (r: &Option<Node>)
        ensures
            match r {
                Some(n) => self@.root == Some(n@),
                None => self@.root is None,
            },
    {
        &self.root
    }

    pub fn new() -> (r: Self)
        ensures
            r@ == (SortByReferenceV {
                stack: Seq::empty(),
                root: None,
                cycles: 0,
                checked: Set::empty(),
            }),
    {
        let r = Self {
            stack: Vec::new(),
            root: None,
            cycles: 0,
            checked: Checked { lists: Ghost(Set::empty()) },
        };
        proof {
            assert(r@.stack =~= Seq::<NodeV>::empty());
        }
        r
    }

    // Appends the labels of `node` and of everything under it, depth first.
    fn collect_labels_recursive(node: &Node, labels_out: &mut Vec<String>)
        ensures
            strings_view(final(labels_out)@) == strings_view(old(labels_out)@) + labels_rec(node@),
        decreases node,
    {
        if let Node::Existing { labels, children, .. } = node {
            let ghost base = strings_view(labels_out@);
            crate::dts::tree::append_strings(labels_out, labels);
            let ghost cv = children_view(children@);
            proof {
                lemma_children_view(children@);
                assert(strings_view(labels_out@) + labels_rec_children(cv, 0) =~= base + labels_rec(
                    node@,
                ));
            }
            let mut i: usize = 0;
            while i < children.len()
                invariant
                    i <= children.len(),
                    *node is Existing,
                    *children == node->children,
                    cv == children_view(children@),
                    cv.len() == children@.len(),
                    forall|j: int|
                        0 <= j < children@.len() ==> #[trigger] cv[j] == (
                            children@[j].0@,
                            children@[j].1@,
                        ),
                    strings_view(labels_out@) + labels_rec_children(cv, i as int) == base + labels_rec(
                        node@,
                    ),
                decreases children.len() - i,
            {
                proof {
                    assert(decreases_to!(*node => *children));
                    assert(decreases_to!(*children => children@));
                    assert(decreases_to!(children@ => children@[i as int]));
                    assert(decreases_to!(children@[i as int] => children@[i as int].1));
                }
                let ghost before = strings_view(labels_out@);
                Self::collect_labels_recursive(&children[i].1, labels_out);
                proof {
                    assert(cv[i as int].1 == children@[i as int].1@);
                    assert(before + labels_rec_children(cv, i as int) =~= strings_view(labels_out@)
                        + labels_rec_children(cv, i + 1));
                }
                i = i + 1;
            }
            proof {
                assert(labels_rec_children(cv, children.len() as int) =~= Seq::<Seq<char>>::empty());
                assert(strings_view(labels_out@) =~= base + labels_rec(node@));
            }
        } else {
            proof {
                assert(strings_view(labels_out@) =~= strings_view(old(labels_out)@) + labels_rec(
                    node@,
                ));
            }
        }
    }

    // The labels `node` depends on, through its dependency properties.
    fn find_dependencies(node: &Node) -> (r: Vec<String>)
        ensures
            strings_view(r@) == node_deps(node@),
    {
        let mut deps: Vec<String> = Vec::new();
        proof {
            assert(strings_view(deps@) =~= Seq::<Seq<char>>::empty());
        }
        if let Node::Existing { proplist, .. } = node {
            let n = prop_map_len(proplist);
            let ghost props = prop_entries(*proplist);
            let mut k: usize = 0;
            while k < n
                invariant
                    k <= n,
                    n == props.len(),
                    props == prop_entries(*proplist),
                    strings_view(deps@) == props_deps(props.subrange(0, k as int)),
                decreases n - k,
            {
                let (prop_name, prop) = prop_map_get_index(proplist, k);
                proof {
                    assert(props.subrange(0, k + 1).drop_last() =~= props.subrange(0, k as int));
                    assert(props.subrange(0, k + 1).last() == props[k as int]);
                }
                let ghost before = strings_view(deps@);
                if is_dep_prop(prop_name.as_str()) {
                    if let Property::Existing { val: Some(data), .. } = prop {
                        push_data_refs(data, &mut deps);
                    } else {
                        proof {
                            assert(strings_view(deps@) =~= before + Seq::<Seq<char>>::empty());
                        }
                    }
                } else {
                    proof {
                        assert(strings_view(deps@) =~= before + Seq::<Seq<char>>::empty());
                    }
                }
                k = k + 1;
            }
            proof {
                assert(props.subrange(0, n as int) =~= props);
            }
        }
        deps
    }

    // Reorders `children` topologically by their dependencies.
    // Also tells whether a cycle made it keep the original order.
    fn topological_sort_map(children: &Vec<(String, Node)>) -> (r: (Vec<(String, Node)>, bool))
        ensures
            children_view(r.0@) == sorted_children(children_view(children@)),
            r.1 == has_cycle(children_view(children@)),
            r.1 ==> !acyclic(children_view(children@)),
            order_checked(children_view(children@)),
            !r.1 && in_limits(children_view(children@)) && keys_unique(children_view(children@))
                ==> exists|o: Seq<usize>|
                is_topo_order(
                    children@.len() as nat,
                    all_edges(children_view(children@), label_index(children_view(children@))),
                    o,
                ) && children_view(r.0@) == pick(children_view(children@), o),
    {
        let n = children.len();
        let ghost cv = children_view(children@);
        proof {
            lemma_children_view(children@);
        }
        // Each label found under a child, mapped to that child's position.
        let mut label_map: StrMap<usize> = StrMap::new();
        let mut i: usize = 0;
        while i < n
            invariant
                i <= n == children.len(),
                cv == children_view(children@),
                cv.len() == children@.len(),
                forall|j: int|
                    0 <= j < children@.len() ==> #[trigger] cv[j] == (
                        children@[j].0@,
                        children@[j].1@,
                    ),
                label_map@ == label_index(cv.subrange(0, i as int)),
                forall|k: Seq<char>| #[trigger] label_map@.contains_key(k) ==> label_map@[k] < n,
            decreases n - i,
        {
            let mut labels: Vec<String> = Vec::new();
            Self::collect_labels_recursive(&children[i].1, &mut labels);
            let ghost lv = labels_rec(cv[i as int].1);
            let ghost m0 = label_map@;
            proof {
                assert(strings_view(labels@) =~= lv);
            }
            let mut j: usize = 0;
            while j < labels.len()
                invariant
                    j <= labels.len(),
                    i < n,
                    strings_view(labels@) == lv,
                    label_map@ == insert_labels(m0, lv.subrange(0, j as int), i),
                decreases labels.len() - j,
            {
                proof {
                    assert(lv.subrange(0, j + 1).drop_last() =~= lv.subrange(0, j as int));
                    assert(lv.subrange(0, j + 1).last() == labels@[j as int]@);
                }
                label_map.insert(labels[j].clone(), i);
                j = j + 1;
            }
            proof {
                assert(lv.subrange(0, labels.len() as int) =~= lv);
                assert(cv.subrange(0, i + 1).drop_last() =~= cv.subrange(0, i as int));
                assert(cv.subrange(0, i + 1).last() == cv[i as int]);
                lemma_insert_labels_bound(m0, lv, i, n);
            }
            i = i + 1;
        }
        proof {
            assert(cv.subrange(0, n as int) =~= cv);
        }
        let ghost lm = label_index(cv);
        // The dependency edges, each once.
        let mut edges: Vec<(usize, usize)> = Vec::new();
        let mut i: usize = 0;
        while i < n
            invariant
                i <= n == children.len(),
                cv == children_view(children@),
                cv.len() == children@.len(),
                forall|j: int|
                    0 <= j < children@.len() ==> #[trigger] cv[j] == (
                        children@[j].0@,
                        children@[j].1@,
                    ),
                label_map@ == lm,
                forall|k: Seq<char>| #[trigger] label_map@.contains_key(k) ==> label_map@[k] < n,
                edges@ == all_edges(cv.subrange(0, i as int), lm),
                forall|k: int| 0 <= k < edges.len() ==> #[trigger] edges@[k].0 < n && edges@[k].1 < n,
            decreases n - i,
        {
            let deps = Self::find_dependencies(&children[i].1);
            let ghost dv = node_deps(cv[i as int].1);
            let ghost e0 = edges@;
            let mut j: usize = 0;
            while j < deps.len()
                invariant
                    j <= deps.len(),
                    i < n,
                    strings_view(deps@) == dv,
                    label_map@ == lm,
                    forall|k: Seq<char>| #[trigger] label_map@.contains_key(k) ==> label_map@[k] < n,
                    edges@ == add_edges(e0, i, dv.subrange(0, j as int), lm),
                    forall|k: int| 0 <= k < edges.len() ==> #[trigger] edges@[k].0 < n && edges@[k].1 < n,
                decreases deps.len() - j,
            {
                proof {
                    assert(dv.subrange(0, j + 1).drop_last() =~= dv.subrange(0, j as int));
                    assert(dv.subrange(0, j + 1).last() == deps@[j as int]@);
                }
                if let Some(t) = label_map.get(deps[j].as_str()) {
                    let t = *t;
                    if t != i {
                        // add the edge t -> i unless present
                        let mut present = false;
                        let mut k: usize = 0;
                        while k < edges.len()
                            invariant
                                k <= edges.len(),
                                present == exists|q: int| 0 <= q < k && edges@[q] == (t, i),
                            decreases edges.len() - k,
                        {
                            if edges[k].0 == t && edges[k].1 == i {
                                present = true;
                            }
                            k = k + 1;
                        }
                        proof {
                            if present {
                                let q = choose|q: int| 0 <= q < k && edges@[q] == (t, i);
                                assert(edges@.contains((t, i)));
                            } else {
                                assert(!edges@.contains((t, i)));
                            }
                        }
                        if !present {
                            edges.push((t, i));
                        }
                    }
                }
                j = j + 1;
            }
            proof {
                assert(dv.subrange(0, deps.len() as int) =~= dv);
                assert(cv.subrange(0, i + 1).drop_last() =~= cv.subrange(0, i as int));
                assert(cv.subrange(0, i + 1).last() == cv[i as int]);
            }
            i = i + 1;
        }
        proof {
            assert(cv.subrange(0, n as int) =~= cv);
        }
        if n >= 0xffff_ffff || edges.len() >= 0xffff_ffff {
            return (crate::dts::tree::clone_children(children), false);
        }
        match toposort_indices(n, &edges) {
            Some(order) => {
                let mut sorted: Vec<(String, Node)> = Vec::new();
                let mut k: usize = 0;
                proof {
                    if keys_unique(cv) {
                        lemma_sorted_children_order(cv, order@);
                    }
                    lemma_children_view(sorted@);
                    assert(children_view(sorted@) =~= Seq::<(Seq<char>, NodeV)>::empty());
                }
                while k < order.len()
                    invariant
                        k <= order.len() == n == children.len(),
                        is_topo_order(n as nat, edges@, order@),
                        cv == children_view(children@),
                        cv.len() == children@.len(),
                        forall|j: int|
                            0 <= j < children@.len() ==> #[trigger] cv[j] == (
                                children@[j].0@,
                                children@[j].1@,
                            ),
                        children_view(sorted@) == insert_order(cv, order@.subrange(0, k as int)),
                    decreases order.len() - k,
                {
                    let idx = order[k];
                    proof {
                        assert(order@[k as int] < n);
                        assert(order@.subrange(0, k + 1).drop_last() =~= order@.subrange(0, k as int));
                        assert(order@.subrange(0, k + 1).last() == idx);
                    }
                    let v = children[idx].1.deep_clone();
                    children_insert(&mut sorted, children[idx].0.clone(), v);
                    k = k + 1;
                }
                proof {
                    assert(order@.subrange(0, n as int) =~= order@);
                }
                let ghost m = children_view(sorted@);
                // Add any child the order missed.
                let mut k: usize = 0;
                while k < n
                    invariant
                        k <= n == children.len(),
                        cv == children_view(children@),
                        cv.len() == children@.len(),
                        forall|j: int|
                            0 <= j < children@.len() ==> #[trigger] cv[j] == (
                                children@[j].0@,
                                children@[j].1@,
                            ),
                        children_view(sorted@) == complete(m, cv.subrange(0, k as int)),
                    decreases n - k,
                {
                    proof {
                        assert(cv.subrange(0, k + 1).drop_last() =~= cv.subrange(0, k as int));
                        assert(cv.subrange(0, k + 1).last() == cv[k as int]);
                    }
                    if !crate::dts::tree::children_contains_key(&sorted, children[k].0.as_str()) {
                        let v = children[k].1.deep_clone();
                        let key = children[k].0.clone();
                        let ghost old_s = sorted@;
                        sorted.push((key, v));
                        proof {
                            assert(sorted@.drop_last() =~= old_s);
                        }
                    }
                    k = k + 1;
                }
                proof {
                    assert(cv.subrange(0, n as int) =~= cv);
                }
                (sorted, false)
            },
            None => (crate::dts::tree::clone_children(children), true),
        }
    }
}

impl Visitor for SortByReference {
    open spec fn ready(s: SortByReferenceV) -> bool {
        true
    }

    proof fn lemma_ready_kept(s: SortByReferenceV, name: Seq<char>, node: NodeV) {
    }

    open spec fn spec_enter(s: SortByReferenceV, name: Seq<char>, node: NodeV) -> (SortByReferenceV, bool) {
        (SortByReferenceV { stack: s.stack.push(strip_children(node)), ..s }, true)
    }

    open spec fn spec_exit(s0: SortByReferenceV, name: Seq<char>, node: NodeV) -> SortByReferenceV {
        if s0.stack.len() == 0 {
            s0
        } else {
            let top = s0.stack.last();
            let s = SortByReferenceV {
                cycles: if top.children().len() > 0 && has_cycle(top.children()) && s0.cycles
                    < usize::MAX {
                    (s0.cycles + 1) as usize
                } else {
                    s0.cycles
                },
                checked: if top.children().len() > 0 {
                    s0.checked.insert(top.children())
                } else {
                    s0.checked
                },
                ..s0
            };
            let new_node = if top.children().len() > 0 {
                with_children(top, sorted_children(top.children()))
            } else {
                top
            };
            let rest = s.stack.drop_last();
            if rest.len() == 0 {
                SortByReferenceV { stack: rest, root: Some(new_node), ..s }
            } else {
                let parent = rest.last();
                match parent {
                    NodeV::Existing { children, .. } => SortByReferenceV {
                        stack: rest.update(
                            rest.len() - 1,
                            with_children(parent, entries_insert(children, name, new_node)),
                        ),
                        ..s
                    },
                    NodeV::Deleted { .. } => SortByReferenceV { stack: rest, ..s },
                }
            }
        }
    }

    fn enter_node(&mut self, _name: &str, node: &Node) -> (r: bool) {
        // A copy with its children dropped; they are added back in `exit_node`.
        let new_node = node.clone_without_children();
        let ghost old_stack = self.stack@;
        let ghost nv = new_node@;
        self.stack.push(new_node);
        proof {
            assert(nodes_view(self.stack@) =~= nodes_view(old_stack).push(nv));
        }
        true
    }

    fn exit_node(&mut self, name: &str, _node: &Node) {
        let ghost s = self@;
        if let Some(mut new_node) = self.stack.pop() {
            proof {
                assert(nodes_view(self.stack@) =~= s.stack.drop_last());
            }
            let ghost top = new_node@;
            // Sort the children collected for this node.
            if let Node::Existing { children, .. } = &mut new_node {
                if children.len() > 0 {
                    proof {
                        lemma_children_view(children@);
                    }
                    let (sorted, cycle) = Self::topological_sort_map(children);
                    let ghost cv = children_view(children@);
                    proof {
                        use_type_invariant(&self.checked);
                    }
                    self.checked = Checked { lists: Ghost(self.checked.lists@.insert(cv)) };
                    *children = sorted;
                    if cycle && self.cycles < usize::MAX {
                        self.cycles = self.cycles + 1;
                    }
                }
            }
            proof {
                if top.children().len() > 0 {
                    assert(new_node@ == with_children(top, sorted_children(top.children())));
                } else {
                    assert(new_node@ == top);
                }
            }
            let ghost newv = new_node@;
            if self.stack.len() == 0 {
                self.root = Some(new_node);
            } else {
                let last = self.stack.len() - 1;
                let ghost before = self.stack@;
                let mut parent = self.stack.remove(last);
                let ghost pv = parent@;
                proof {
                    assert(pv == before[last as int]@);
                    assert(s.stack.drop_last().last() == pv);
                }
                if let Node::Existing { children, .. } = &mut parent {
                    children_insert(children, String::from_str(name), new_node);
                }
                proof {
                    if pv is Existing {
                        assert(parent@ == with_children(pv, entries_insert(pv.children(), name@, newv)));
                    } else {
                        assert(parent@ == pv);
                    }
                }
                let ghost nv = parent@;
                self.stack.push(parent);
                proof {
                    assert(self.stack@ =~= before.update(last as int, self.stack@.last()));
                    assert(nodes_view(self.stack@) =~= nodes_view(before).update(last as int, nv));
                    let sp = Self::spec_exit(s, name@, _node@);
                    assert(self@.stack == sp.stack);
                    assert(self@.root == sp.root);
                }
            }
        }
    }
}

// ---------------------------------------------------------------------------
// What a walk builds
// ---------------------------------------------------------------------------

/// The tree under `n` with the children of every node sorted by
/// `sorted_children` (after their own subtrees were sorted).
pub open spec fn sort_tree(n: NodeV) -> NodeV
    decreases n, 0nat,
{
    match n {
        NodeV::Existing { children, .. } => {
            let ch = sort_fold(Seq::empty(), children, 0);
            if ch.len() > 0 {
                with_children(n, sorted_children(ch))
            } else {
                with_children(n, ch)
            }
        },
        NodeV::Deleted { .. } => n,
    }
}

/// `acc` with the children `children[i..]` put in, each sorted.
pub open spec fn sort_fold(
    acc: Seq<(Seq<char>, NodeV)>,
    children: Seq<(Seq<char>, NodeV)>,
    i: int,
) -> Seq<(Seq<char>, NodeV)>
    decreases children, children.len() - i,
{
    if 0 <= i < children.len() {
        sort_fold(entries_insert(acc, children[i].0, sort_tree(children[i].1)), children, i + 1)
    } else {
        acc
    }
}

/// `s` with the children of the node on top of its stack replaced.
pub open spec fn set_top_sorted(s: SortByReferenceV, children: Seq<(Seq<char>, NodeV)>) -> SortByReferenceV {
    SortByReferenceV {
        stack: s.stack.update(s.stack.len() - 1, with_children(s.stack.last(), children)),
        ..s
    }
}

/// Every children list that `sort_tree(n)` sorts, at any depth, is in `set`.
pub open spec fn tree_checked(n: NodeV, set: Set<Seq<(Seq<char>, NodeV)>>) -> bool
    decreases n, 0nat,
{
    match n {
        NodeV::Existing { children, .. } => {
            let ch = sort_fold(Seq::empty(), children, 0);
            (ch.len() > 0 ==> set.contains(ch)) && children_checked(children, 0, set)
        },
        NodeV::Deleted { .. } => true,
    }
}

/// `tree_checked` for each of `children[i..]`.
pub open spec fn children_checked(
    children: Seq<(Seq<char>, NodeV)>,
    i: int,
    set: Set<Seq<(Seq<char>, NodeV)>>,
) -> bool
    decreases children, children.len() - i,
{
    if 0 <= i < children.len() {
        tree_checked(children[i].1, set) && children_checked(children, i + 1, set)
    } else {
        true
    }
}

proof fn lemma_tree_checked_mono(
    n: NodeV,
    a: Set<Seq<(Seq<char>, NodeV)>>,
    b: Set<Seq<(Seq<char>, NodeV)>>,
)
    requires
        a.subset_of(b),
        tree_checked(n, a),
    ensures
        tree_checked(n, b),
    decreases n, 0nat,
{
    if let NodeV::Existing { children, .. } = n {
        lemma_children_checked_mono(children, 0, a, b);
    }
}

proof fn lemma_children_checked_mono(
    children: Seq<(Seq<char>, NodeV)>,
    i: int,
    a: Set<Seq<(Seq<char>, NodeV)>>,
    b: Set<Seq<(Seq<char>, NodeV)>>,
)
    requires
        a.subset_of(b),
        children_checked(children, i, a),
    ensures
        children_checked(children, i, b),
    decreases children, children.len() - i,
{
    if 0 <= i < children.len() {
        lemma_tree_checked_mono(children[i].1, a, b);
        lemma_children_checked_mono(children, i + 1, a, b);
    }
}

proof fn lemma_sort_walk_step(s: SortByReferenceV, name: Seq<char>, n: NodeV)
    requires
        s.stack.len() > 0,
        s.stack.last() is Existing,
    ensures
        walk_spec::<SortByReference>(s, name, n).stack == set_top_sorted(
            s,
            entries_insert(s.stack.last().children(), name, sort_tree(n)),
        ).stack,
        walk_spec::<SortByReference>(s, name, n).root == s.root,
        s.checked.subset_of(walk_spec::<SortByReference>(s, name, n).checked),
        tree_checked(n, walk_spec::<SortByReference>(s, name, n).checked),
    decreases n, 0nat,
{
    let s1 = SortByReferenceV { stack: s.stack.push(strip_children(n)), ..s };
    if let NodeV::Existing { children, .. } = n {
        lemma_sort_walk_children(s1, children, 0);
        let s2 = walk_children::<SortByReference>(s1, children, 0);
        assert(s2.stack.drop_last() =~= s.stack);
        let w = walk_spec::<SortByReference>(s, name, n);
        assert(s2.checked.subset_of(w.checked));
        lemma_children_checked_mono(children, 0, s2.checked, w.checked);
    } else {
        assert(s1.stack.drop_last() =~= s.stack);
    }
}

proof fn lemma_sort_walk_children(s: SortByReferenceV, children: Seq<(Seq<char>, NodeV)>, i: int)
    requires
        s.stack.len() > 0,
        s.stack.last() is Existing,
    ensures
        walk_children::<SortByReference>(s, children, i).stack == set_top_sorted(
            s,
            sort_fold(s.stack.last().children(), children, i),
        ).stack,
        walk_children::<SortByReference>(s, children, i).root == s.root,
        s.checked.subset_of(walk_children::<SortByReference>(s, children, i).checked),
        children_checked(children, i, walk_children::<SortByReference>(s, children, i).checked),
    decreases children, children.len() - i,
{
    if 0 <= i < children.len() {
        lemma_sort_walk_step(s, children[i].0, children[i].1);
        let s1 = walk_spec::<SortByReference>(s, children[i].0, children[i].1);
        lemma_sort_walk_children(s1, children, i + 1);
        let acc2 = entries_insert(s.stack.last().children(), children[i].0, sort_tree(children[i].1));
        assert(s1.stack.last().children() == acc2);
        let f = sort_fold(acc2, children, i + 1);
        assert(set_top_sorted(s1, f).stack =~= set_top_sorted(s, f).stack);
        let w = walk_children::<SortByReference>(s1, children, i + 1);
        lemma_tree_checked_mono(children[i].1, s1.checked, w.checked);
    } else {
        assert(s.stack.update(s.stack.len() - 1, with_children(s.stack.last(), s.stack.last().children()))
            =~= s.stack);
    }
}

/// Walking a tree with a new sorter builds the tree with the children of
/// every node in dependency order (`sort_tree`), and records every children
/// list it sorted (`tree_checked`; see `SortByReference::orders_checked` and
/// `lemma_sorted_tree_ordered`).
pub proof fn lemma_sort_walk(name: Seq<char>, n: NodeV)
    ensures
        walk_spec::<SortByReference>(
            SortByReferenceV { stack: Seq::empty(), root: None, cycles: 0, checked: Set::empty() },
            name,
            n,
        ).root == Some(sort_tree(n)),
        tree_checked(
            n,
            walk_spec::<SortByReference>(
                SortByReferenceV {
                    stack: Seq::empty(),
                    root: None,
                    cycles: 0,
                    checked: Set::empty(),
                },
                name,
                n,
            ).checked,
        ),
{
    let s = SortByReferenceV {
        stack: Seq::<NodeV>::empty(),
        root: None,
        cycles: 0,
        checked: Set::empty(),
    };
    let s1 = SortByReferenceV { stack: s.stack.push(strip_children(n)), ..s };
    if let NodeV::Existing { children, .. } = n {
        lemma_sort_walk_children(s1, children, 0);
        let s2 = walk_children::<SortByReference>(s1, children, 0);
        assert(s2.stack.drop_last() =~= Seq::<NodeV>::empty());
        let w = walk_spec::<SortByReference>(s, name, n);
        assert(s2.checked.subset_of(w.checked));
        lemma_children_checked_mono(children, 0, s2.checked, w.checked);
    } else {
        assert(s1.stack.drop_last() =~= Seq::<NodeV>::empty());
    }
}

// ---------------------------------------------------------------------------
// The order of sorted children
// ---------------------------------------------------------------------------

proof fn lemma_push_new(es: Seq<(usize, usize)>, e: (usize, usize))
    ensures
        push_new(es, e).contains(e),
        forall|x: (usize, usize)| es.contains(x) ==> push_new(es, e).contains(x),
{
    if !es.contains(e) {
        assert(es.push(e)[es.len() as int] == e);
        assert forall|x: (usize, usize)| es.contains(x) implies es.push(e).contains(x) by {
            let k = choose|k: int| 0 <= k < es.len() && es[k] == x;
            assert(es.push(e)[k] == x);
        }
    }
}

proof fn lemma_add_edges(es: Seq<(usize, usize)>, i: usize, deps: Seq<Seq<char>>, lm: Map<Seq<char>, usize>)
    ensures
        forall|x: (usize, usize)| es.contains(x) ==> add_edges(es, i, deps, lm).contains(x),
        forall|d: Seq<char>|
            deps.contains(d) && lm.contains_key(d) && lm[d] != i ==> add_edges(es, i, deps, lm).contains(
                (lm[d], i),
            ),
    decreases deps.len(),
{
    if deps.len() > 0 {
        let prev = add_edges(es, i, deps.drop_last(), lm);
        lemma_add_edges(es, i, deps.drop_last(), lm);
        let d = deps.last();
        if lm.contains_key(d) && lm[d] != i {
            lemma_push_new(prev, (lm[d], i));
        }
        assert forall|d2: Seq<char>|
            deps.contains(d2) && lm.contains_key(d2) && lm[d2] != i implies add_edges(
                es,
                i,
                deps,
                lm,
            ).contains((lm[d2], i)) by {
            let k = choose|k: int| 0 <= k < deps.len() && deps[k] == d2;
            if k < deps.len() - 1 {
                assert(deps.drop_last()[k] == d2);
            }
        }
    }
}

proof fn lemma_all_edges(children: Seq<(Seq<char>, NodeV)>, lm: Map<Seq<char>, usize>)
    requires
        children.len() < 0xffff_ffff,
    ensures
        forall|i: int, d: Seq<char>|
            #![trigger node_deps(children[i].1).contains(d), lm[d]]
            0 <= i < children.len() && node_deps(children[i].1).contains(d) && lm.contains_key(d)
                && lm[d] != i ==> all_edges(children, lm).contains((lm[d], i as usize)),
    decreases children.len(),
{
    if children.len() > 0 {
        let init = children.drop_last();
        let n1 = (children.len() - 1) as usize;
        lemma_all_edges(init, lm);
        lemma_add_edges(all_edges(init, lm), n1, node_deps(children.last().1), lm);
        assert forall|i: int, d: Seq<char>|
            #![trigger node_deps(children[i].1).contains(d), lm[d]]
            0 <= i < children.len() && node_deps(children[i].1).contains(d) && lm.contains_key(d)
                && lm[d] != i implies all_edges(children, lm).contains((lm[d], i as usize)) by {
            if i < children.len() - 1 {
                assert(init[i] == children[i]);
            }
        }
    }
}

/// The children at the positions `o`.
pub open spec fn pick(children: Seq<(Seq<char>, NodeV)>, o: Seq<usize>) -> Seq<(Seq<char>, NodeV)> {
    o.map_values(|k: usize| children[k as int])
}

proof fn lemma_insert_order(children: Seq<(Seq<char>, NodeV)>, o: Seq<usize>)
    requires
        keys_unique(children),
        forall|i: int| 0 <= i < o.len() ==> #[trigger] o[i] < children.len(),
        o.no_duplicates(),
    ensures
        insert_order(children, o) == pick(children, o),
    decreases o.len(),
{
    if o.len() > 0 {
        let o1 = o.drop_last();
        assert forall|i: int, j: int| 0 <= i < o1.len() && 0 <= j < o1.len() && i != j implies o1[i]
            != o1[j] by {
            assert(o1[i] == o[i] && o1[j] == o[j]);
        }
        assert forall|i: int| 0 <= i < o1.len() implies #[trigger] o1[i] < children.len() by {
            assert(o1[i] == o[i]);
        }
        lemma_insert_order(children, o1);
        let m = pick(children, o1);
        let c = children[o.last() as int];
        lemma_find_key(m, c.0);
        assert forall|j: int| 0 <= j < m.len() implies m[j].0 != c.0 by {
            assert(m[j] == children[o1[j] as int]);
            assert(o1[j] == o[j]);
            assert(o[j] != o[o.len() - 1]);
        }
        assert(pick(children, o) =~= m.push(c));
    } else {
        assert(pick(children, o) =~= Seq::<(Seq<char>, NodeV)>::empty());
    }
}

/// Some entry of `m` has key `k`.
pub open spec fn has_key(m: Seq<(Seq<char>, NodeV)>, k: Seq<char>) -> bool {
    exists|j: int| 0 <= j < m.len() && m[j].0 == k
}

proof fn lemma_complete_full(m: Seq<(Seq<char>, NodeV)>, children: Seq<(Seq<char>, NodeV)>)
    requires
        forall|i: int| 0 <= i < children.len() ==> has_key(m, #[trigger] children[i].0),
    ensures
        complete(m, children) == m,
    decreases children.len(),
{
    if children.len() > 0 {
        let init = children.drop_last();
        assert forall|i: int| 0 <= i < init.len() implies has_key(m, #[trigger] init[i].0) by {
            assert(init[i] == children[i]);
        }
        lemma_complete_full(m, init);
        let k = children.last().0;
        assert(has_key(m, children[children.len() - 1].0));
        lemma_find_key(m, k);
    }
}

/// `k` stands in `o`.
pub open spec fn occurs(o: Seq<usize>, k: int) -> bool {
    exists|a: int| 0 <= a < o.len() && o[a] == k
}

proof fn lemma_order_covers(o: Seq<usize>, n: nat)
    requires
        is_topo_order(n, Seq::empty(), o),
    ensures
        forall|k: int| 0 <= k < n ==> #[trigger] occurs(o, k),
{
    let oi = o.map_values(|x: usize| x as int);
    assert(oi.no_duplicates()) by {
        assert forall|i: int, j: int| 0 <= i < oi.len() && 0 <= j < oi.len() && i != j implies oi[i]
            != oi[j] by {
            assert(o[i] != o[j]);
        }
    }
    oi.unique_seq_to_set();
    vstd::set_lib::lemma_int_range(0, n as int);
    let r = vstd::set_lib::set_int_range(0, n as int);
    assert(oi.to_set().subset_of(r)) by {
        assert forall|x: int| oi.to_set().contains(x) implies r.contains(x) by {
            let i = choose|i: int| 0 <= i < oi.len() && oi[i] == x;
            assert(o[i] < n);
        }
    }
    vstd::set_lib::lemma_set_subset_finite(r, oi.to_set());
    vstd::set_lib::lemma_subset_equality(oi.to_set(), r);
    assert forall|k: int| 0 <= k < n implies #[trigger] occurs(o, k) by {
        assert(r.contains(k));
        assert(oi.to_set().contains(k));
        let a = choose|a: int| 0 <= a < oi.len() && oi[a] == k;
        assert(o[a] == k);
    }
}

/// Where petgraph gives an order `o` of the children (an order in which each
/// dependency edge goes forward, as its documentation says) and the keys are
/// unique, the sorted children are the children in that order, and a child
/// comes after each sibling under which a label it depends on stands.
pub proof fn lemma_sorted_children_order(children: Seq<(Seq<char>, NodeV)>, o: Seq<usize>)
    requires
        keys_unique(children),
        children.len() < 0xffff_ffff,
        all_edges(children, label_index(children)).len() < 0xffff_ffff,
        toposort_result(children.len(), all_edges(children, label_index(children))) == Some(o),
        is_topo_order(children.len(), all_edges(children, label_index(children)), o),
    ensures
        sorted_children(children) == pick(children, o),
        forall|a: int, b: int, d: Seq<char>|
            0 <= a < children.len() && 0 <= b < children.len() && node_deps(
                children[o[b] as int].1,
            ).contains(d) && label_index(children).contains_key(d) && label_index(children)[d]
                == o[a] && o[a] != o[b] ==> a < b,
{
    let n = children.len();
    let lm = label_index(children);
    let es = all_edges(children, lm);
    assert(is_topo_order(n, Seq::empty(), o));
    lemma_order_covers(o, n);
    assert(o.no_duplicates());
    lemma_insert_order(children, o);
    let m = pick(children, o);
    assert forall|i: int| 0 <= i < n implies has_key(m, #[trigger] children[i].0) by {
        assert(occurs(o, i));
        let a = choose|a: int| 0 <= a < o.len() && o[a] == i;
        assert(m[a] == children[i]);
    }
    lemma_complete_full(m, children);
    lemma_all_edges(children, lm);
    assert forall|a: int, b: int, d: Seq<char>|
        0 <= a < n && 0 <= b < n && node_deps(children[o[b] as int].1).contains(d) && lm.contains_key(d)
            && lm[d] == o[a] && o[a] != o[b] implies a < b by {
        let i = o[b] as int;
        assert(node_deps(children[i].1).contains(d));
        assert(es.contains((lm[d], i as usize)));
        let k = choose|k: int| 0 <= k < es.len() && es[k] == (lm[d], i as usize);
        assert(es[k].0 == o[a] && es[k].1 == o[b]);
    }
}

/// Where petgraph orders the graph of `children`, the sorted children are
/// the children in an order in which every dependency edge goes forward.
pub open spec fn sorted_by_some_order(children: Seq<(Seq<char>, NodeV)>) -> bool {
    let es = all_edges(children, label_index(children));
    in_limits(children) && acyclic(children) ==> exists|o: Seq<usize>|
        is_topo_order(children.len(), es, o) && sorted_children(children) == pick(children, o)
}

/// At every node of `sort_tree(n)` whose children's dependencies have no
/// cycle, the children were sorted by an order in which each dependency edge
/// goes forward.
pub open spec fn tree_ordered(n: NodeV) -> bool
    decreases n, 0nat,
{
    match n {
        NodeV::Existing { children, .. } => {
            let ch = sort_fold(Seq::empty(), children, 0);
            (ch.len() > 0 ==> sorted_by_some_order(ch)) && children_ordered(children, 0)
        },
        NodeV::Deleted { .. } => true,
    }
}

/// `tree_ordered` for each of `children[i..]`.
pub open spec fn children_ordered(children: Seq<(Seq<char>, NodeV)>, i: int) -> bool
    decreases children, children.len() - i,
{
    if 0 <= i < children.len() {
        tree_ordered(children[i].1) && children_ordered(children, i + 1)
    } else {
        true
    }
}

proof fn lemma_sort_fold_unique(acc: Seq<(Seq<char>, NodeV)>, children: Seq<(Seq<char>, NodeV)>, i: int)
    requires
        keys_unique(acc),
    ensures
        keys_unique(sort_fold(acc, children, i)),
    decreases children.len() - i,
{
    if 0 <= i < children.len() {
        lemma_find_key(acc, children[i].0);
        lemma_sort_fold_unique(
            entries_insert(acc, children[i].0, sort_tree(children[i].1)),
            children,
            i + 1,
        );
    }
}

/// For children whose sort was checked (see `order_checked`), with unique
/// keys and within petgraph's limits: the sort meets a cycle exactly when
/// no topological order exists; otherwise the sorted children are the
/// children in a topological order, so that a child follows every sibling
/// under which a label it depends on stands.
pub proof fn lemma_checked_list_ordered(ch: Seq<(Seq<char>, NodeV)>)
    requires
        order_checked(ch),
        keys_unique(ch),
    ensures
        in_limits(ch) ==> (has_cycle(ch) <==> !acyclic(ch)),
        sorted_by_some_order(ch),
{
    let es = all_edges(ch, label_index(ch));
    if in_limits(ch) {
        match toposort_result(ch.len(), es) {
            Some(o) => {
                lemma_sorted_children_order(ch, o);
                assert(acyclic(ch));
            },
            None => {
                assert(!acyclic(ch));
            },
        }
    }
}

/// A tree whose sorted children lists were all recorded by a sorter (which
/// `SortByReference::orders_checked` says were checked) is ordered at every
/// node: wherever the dependencies among a node's children have no cycle,
/// the children of that node in `sort_tree(n)` come in an order in which a
/// child follows every sibling under which a label it depends on stands.
pub proof fn lemma_sorted_tree_ordered(n: NodeV, set: Set<Seq<(Seq<char>, NodeV)>>)
    requires
        tree_checked(n, set),
        forall|c: Seq<(Seq<char>, NodeV)>| set.contains(c) ==> order_checked(c),
    ensures
        tree_ordered(n),
    decreases n, 0nat,
{
    if let NodeV::Existing { children, .. } = n {
        let ch = sort_fold(Seq::empty(), children, 0);
        lemma_sort_fold_unique(Seq::empty(), children, 0);
        if ch.len() > 0 {
            lemma_checked_list_ordered(ch);
        }
        lemma_children_tree_ordered(children, 0, set);
    }
}

proof fn lemma_children_tree_ordered(
    children: Seq<(Seq<char>, NodeV)>,
    i: int,
    set: Set<Seq<(Seq<char>, NodeV)>>,
)
    requires
        children_checked(children, i, set),
        forall|c: Seq<(Seq<char>, NodeV)>| set.contains(c) ==> order_checked(c),
    ensures
        children_ordered(children, i),
    decreases children, children.len() - i,
{
    if 0 <= i < children.len() {
        lemma_sorted_tree_ordered(children[i].1, set);
        lemma_children_tree_ordered(children, i + 1, set);
    }
}

/// A walk of a new sorter over `n` builds `sort_tree(n)`, and given what
/// `SortByReference::orders_checked` then says of the sorter, every group of
/// siblings whose dependencies have no cycle comes out in dependency order:
/// a node follows each sibling under which a label it depends on stands.
pub proof fn lemma_sort_walk_ordered(name: Seq<char>, n: NodeV)
    requires
        forall|c: Seq<(Seq<char>, NodeV)>|
            walk_spec::<SortByReference>(
                SortByReferenceV {
                    stack: Seq::empty(),
                    root: None,
                    cycles: 0,
                    checked: Set::empty(),
                },
                name,
                n,
            ).checked.contains(c) ==> order_checked(c),
    ensures
        walk_spec::<SortByReference>(
            SortByReferenceV { stack: Seq::empty(), root: None, cycles: 0, checked: Set::empty() },
            name,
            n,
        ).root == Some(sort_tree(n)),
        tree_ordered(n),
{
    lemma_sort_walk(name, n);
    let w = walk_spec::<SortByReference>(
        SortByReferenceV { stack: Seq::empty(), root: None, cycles: 0, checked: Set::empty() },
        name,
        n,
    );
    lemma_sorted_tree_ordered(n, w.checked);
}

// ---------------------------------------------------------------------------
// Which labels a node depends on
// ---------------------------------------------------------------------------

proof fn lemma_cell_refs_has(c: Seq<CellV>, k: int, l: Seq<char>, o: Option<u32>)
    requires
        0 <= k < c.len(),
        c[k] == CellV::Ref(l, o),
    ensures
        cell_refs(c).contains(l),
    decreases c.len(),
{
    let init = c.drop_last();
    if k < c.len() - 1 {
        assert(init[k] == c[k]);
        lemma_cell_refs_has(init, k, l, o);
        let x = choose|x: int| 0 <= x < cell_refs(init).len() && cell_refs(init)[x] == l;
        assert(cell_refs(c)[x] == l);
    } else {
        let t = cell_refs(init);
        assert(cell_refs(c)[t.len() as int] == l);
    }
}

proof fn lemma_data_refs_has(d: Seq<DataV>, j: int, l: Seq<char>)
    requires
        0 <= j < d.len(),
        (d[j] matches DataV::Reference(x, _) && x == l) || (d[j] matches DataV::Cells(_, c) && exists|
            k: int,
            o: Option<u32>,
        | 0 <= k < c.len() && c[k] == CellV::Ref(l, o)),
    ensures
        data_refs(d).contains(l),
    decreases d.len(),
{
    let init = d.drop_last();
    let t = data_refs(init);
    if j < d.len() - 1 {
        assert(init[j] == d[j]);
        lemma_data_refs_has(init, j, l);
        let x = choose|x: int| 0 <= x < t.len() && t[x] == l;
        assert(data_refs(d)[x] == l);
    } else {
        match d[j] {
            DataV::Reference(_, _) => {
                assert(data_refs(d)[t.len() as int] == l);
            },
            DataV::Cells(_, c) => {
                let (k, o) = choose|k: int, o: Option<u32>| 0 <= k < c.len() && c[k] == CellV::Ref(l, o);
                lemma_cell_refs_has(c, k, l, o);
                let x = choose|x: int| 0 <= x < cell_refs(c).len() && cell_refs(c)[x] == l;
                assert(data_refs(d)[t.len() + x] == l);
            },
            _ => {},
        }
    }
}

/// A node depends on every label referenced in any of its dependency
/// properties (`clocks`, `interrupt-parent`, `power-domains`, `phys`,
/// `resets`, `dmas`, `iommus`, `mboxes`, `interconnects`): on each reference
/// piece, and on each reference among the cells of each `< ... >` piece, of
/// each such property.
pub proof fn lemma_props_deps_complete(
    props: Seq<(Seq<char>, PropertyV)>,
    i: int,
    j: int,
    l: Seq<char>,
)
    requires
        0 <= i < props.len(),
        dep_prop_names().contains(props[i].0),
        props[i].1 matches PropertyV::Existing { val: Some(d), .. } && 0 <= j < d.len() && ((
        d[j] matches DataV::Reference(x, _) && x == l) || (d[j] matches DataV::Cells(_, c) && exists|
            k: int,
            o: Option<u32>,
        | 0 <= k < c.len() && c[k] == CellV::Ref(l, o))),
    ensures
        props_deps(props).contains(l),
    decreases props.len(),
{
    let init = props.drop_last();
    let t = props_deps(init);
    if i < props.len() - 1 {
        assert(init[i] == props[i]);
        lemma_props_deps_complete(init, i, j, l);
        let x = choose|x: int| 0 <= x < t.len() && t[x] == l;
        assert(props_deps(props)[x] == l);
    } else {
        if let PropertyV::Existing { val: Some(d), .. } = props[i].1 {
            lemma_data_refs_has(d, j, l);
            let x = choose|x: int| 0 <= x < data_refs(d).len() && data_refs(d)[x] == l;
            assert(props_deps(props)[t.len() + x] == l);
        }
    }
}

} // verus!
