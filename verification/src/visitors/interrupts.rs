//! Extraction of interrupts, resolved against their interrupt controllers.

use crate::dts::tree::{
    all_cells, all_nums, cells_view, children_view, datas_view, flatten_cells, flatten_nums,
    lemma_children_view, lookup, node_has_prop, node_prop_data, node_u32_prop, u32_prop, Cell,
    CellV, Data, DataV, Node, NodeV,
};
use crate::strmap::StrMap;
use crate::text::{
    concat, dec_digits, fmt_dec, fmt_hex_prefixed, hex_prefixed, join, join_strings, str_eq,
    strings_view,
};
use crate::visitors::{
    full_path, full_path_of, lemma_walk_appends, lemma_walk_children_keeps, lemma_walk_keeps,
    walk_children, walk_spec, Visitor,
};
use vstd::prelude::*;

verus! {

/// Where a node's interrupts go.
#[derive(Debug, Clone, PartialEq)]
enum ParentRef {
    Phandle(u32),
    Name(String),
    Root,
}

/// An interrupt parent as seen by specifications.
pub enum ParentRefV {
    Phandle(u32),
    Name(Seq<char>),
    Root,
}

impl View for ParentRef {
    type V = ParentRefV;

    closed spec fn view(&self) -> ParentRefV {
        match self {
            ParentRef::Phandle(p) => ParentRefV::Phandle(*p),
            ParentRef::Name(n) => ParentRefV::Name(n@),
            ParentRef::Root => ParentRefV::Root,
        }
    }
}

impl ParentRef {
    fn copy(&self) -> (r: ParentRef)
        ensures
            r@ == self@,
    {
        match self {
            ParentRef::Phandle(p) => ParentRef::Phandle(*p),
            ParentRef::Name(n) => ParentRef::Name(n.clone()),
            ParentRef::Root => ParentRef::Root,
        }
    }
}

/// Information about an extracted interrupt.
#[derive(Debug)]
pub struct InterruptInfo {
    /// The full path of the node defining the interrupt.
    pub alias: String,
    /// The name of the node.
    pub name: String,
    /// The number of cells per interrupt specifier.
    pub chunk_size: usize,
    /// The raw cell values in hex format.
    pub cells_hex: String,
    /// The full path of the interrupt parent.
    pub parent_alias: String,
}

/// An interrupt as seen by specifications.
pub struct InterruptInfoV {
    pub alias: Seq<char>,
    pub name: Seq<char>,
    pub chunk_size: usize,
    pub cells_hex: Seq<char>,
    pub parent_alias: Seq<char>,
}

impl View for InterruptInfo {
    type V = InterruptInfoV;

    open spec fn view(&self) -> InterruptInfoV {
        InterruptInfoV {
            alias: self.alias@,
            name: self.name@,
            chunk_size: self.chunk_size,
            cells_hex: self.cells_hex@,
            parent_alias: self.parent_alias@,
        }
    }
}

/// The views of a list of interrupts.
pub open spec fn irqs_view(v: Seq<InterruptInfo>) -> Seq<InterruptInfoV> {
    v.map_values(|r: InterruptInfo| r@)
}

/// The state of an `InterruptsExtractor` as seen by specifications.
pub struct InterruptsExtractorV {
    pub parents: Seq<ParentRefV>,
    pub path: Seq<Seq<char>>,
    pub controllers: Map<Seq<char>, (u32, Seq<char>)>,
    pub interrupts: Seq<InterruptInfoV>,
}

/// A visitor that extracts interrupt information from the Device Tree.
///
/// It tracks `interrupt-parent` properties and resolves interrupt controllers
/// to produce a flattened list of interrupts.
pub struct InterruptsExtractor {
    parent_stack: Vec<ParentRef>,
    path_stack: Vec<String>,
    // key: a label, or a phandle in decimal; value: (#interrupt-cells, full path)
    controllers: StrMap<(u32, String)>,
    /// The collected list of interrupts.
    pub interrupts: Vec<InterruptInfo>,
}

/// The view of a controller table.
pub open spec fn ctrl_view(m: Map<Seq<char>, (u32, String)>) -> Map<Seq<char>, (u32, Seq<char>)> {
    m.map_values(|v: (u32, String)| (v.0, v.1@))
}

proof fn lemma_ctrl_view_insert(m: Map<Seq<char>, (u32, String)>, k: Seq<char>, v: (u32, String))
    ensures
        ctrl_view(m.insert(k, v)) == ctrl_view(m).insert(k, (v.0, v.1@)),
{
    assert(ctrl_view(m.insert(k, v)) =~= ctrl_view(m).insert(k, (v.0, v.1@)));
}

impl View for InterruptsExtractor {
    type V = InterruptsExtractorV;

    closed spec fn view(&self) -> InterruptsExtractorV {
        InterruptsExtractorV {
            parents: self.parent_stack@.map_values(|p: ParentRef| p@),
            path: strings_view(self.path_stack@),
            controllers: ctrl_view(self.controllers@),
            interrupts: irqs_view(self.interrupts@),
        }
    }
}

// ---------------------------------------------------------------------------
// Specifications
// ---------------------------------------------------------------------------

/// Applies the insertions of `e` to `m` in order.
pub open spec fn insert_all<K, V>(m: Map<K, V>, e: Seq<(K, V)>) -> Map<K, V>
    decreases e.len(),
{
    if e.len() == 0 {
        m
    } else {
        insert_all(m, e.drop_last()).insert(e.last().0, e.last().1)
    }
}

/// The table entries a node registers when it is an interrupt controller:
/// each label, then `phandle`, then `linux,phandle` in decimal, all mapped to
/// its `#interrupt-cells` (1 by default) and `path`.
pub open spec fn controller_entries(node: NodeV, path: Seq<char>) -> Seq<
    (Seq<char>, (u32, Seq<char>)),
> {
    if node is Existing && lookup(node.props(), "interrupt-controller"@) is Some {
        let cells = match u32_prop(node, "#interrupt-cells"@) {
            Some(c) => c,
            None => 1,
        };
        let by_label = node.labels().map_values(|l: Seq<char>| (l, (cells, path)));
        let by_phandle = match u32_prop(node, "phandle"@) {
            Some(p) => seq![(dec_digits(p as nat), (cells, path))],
            None => Seq::empty(),
        };
        let by_linux = match u32_prop(node, "linux,phandle"@) {
            Some(p) => seq![(dec_digits(p as nat), (cells, path))],
            None => Seq::empty(),
        };
        by_label + by_phandle + by_linux
    } else {
        Seq::empty()
    }
}

/// The path of child `name` under `path`.
pub open spec fn child_path(path: Seq<char>, name: Seq<char>) -> Seq<char> {
    if path == seq!['/'] {
        seq!['/'] + name
    } else {
        path + seq!['/'] + name
    }
}

/// The controller table after registering every controller under `node`
/// (at `path`), in depth-first order.
pub open spec fn collect_spec(
    m: Map<Seq<char>, (u32, Seq<char>)>,
    node: NodeV,
    path: Seq<char>,
) -> Map<Seq<char>, (u32, Seq<char>)>
    decreases node, 0nat,
{
    match node {
        NodeV::Existing { children, .. } => collect_children(
            insert_all(m, controller_entries(node, path)),
            children,
            path,
            0,
        ),
        NodeV::Deleted { .. } => m,
    }
}

/// `collect_spec` over `children[i..]`.
pub open spec fn collect_children(
    m: Map<Seq<char>, (u32, Seq<char>)>,
    children: Seq<(Seq<char>, NodeV)>,
    path: Seq<char>,
    i: int,
) -> Map<Seq<char>, (u32, Seq<char>)>
    decreases children, children.len() - i,
{
    if 0 <= i < children.len() {
        collect_children(
            collect_spec(m, children[i].1, child_path(path, children[i].0)),
            children,
            path,
            i + 1,
        )
    } else {
        m
    }
}

/// The interrupt parent named by the first `interrupt-parent` data that
/// names one.
pub open spec fn parent_ref_of(data: Seq<DataV>) -> Option<ParentRefV>
    decreases data.len(),
{
    if data.len() == 0 {
        None
    } else {
        match data[0] {
            DataV::Cells(_, c) => if c.len() > 0 {
                match c[0] {
                    CellV::Num(v) => Some(ParentRefV::Phandle(v as u32)),
                    CellV::Ref(n, _) => Some(ParentRefV::Name(n)),
                }
            } else {
                parent_ref_of(data.skip(1))
            },
            DataV::Reference(n, _) => Some(ParentRefV::Name(n)),
            _ => parent_ref_of(data.skip(1)),
        }
    }
}

/// The interrupt parent that `node` names itself, if any.
pub open spec fn node_parent_ref(node: NodeV) -> Option<ParentRefV> {
    match node.prop_data("interrupt-parent"@) {
        Some(d) => parent_ref_of(d),
        None => None,
    }
}

/// The controller entry for an interrupt parent.
pub open spec fn resolve(ctrl: Map<Seq<char>, (u32, Seq<char>)>, p: ParentRefV) -> Option<
    (u32, Seq<char>),
> {
    let key = match p {
        ParentRefV::Phandle(v) => dec_digits(v as nat),
        ParentRefV::Name(n) => n,
        ParentRefV::Root => Seq::empty(),
    };
    if p !is Root && ctrl.contains_key(key) {
        Some(ctrl[key])
    } else {
        None
    }
}

/// The hex texts of `chunk`, comma separated.
pub open spec fn cells_hex(chunk: Seq<u64>) -> Seq<char> {
    join(chunk.map_values(|c: u64| hex_prefixed(c as nat)), seq![','])
}

/// The interrupt record for one specifier.
pub open spec fn irq_info(path: Seq<char>, name: Seq<char>, chunk: Seq<u64>, alias: Seq<char>) -> InterruptInfoV {
    InterruptInfoV {
        alias: path,
        name,
        chunk_size: chunk.len() as usize,
        cells_hex: cells_hex(chunk),
        parent_alias: alias,
    }
}

/// The interrupts of `irqs` read in full chunks of `cs` cells.
pub open spec fn irq_chunks(
    irqs: Seq<u64>,
    cs: nat,
    path: Seq<char>,
    name: Seq<char>,
    alias: Seq<char>,
) -> Seq<InterruptInfoV>
    decreases irqs.len(),
{
    if cs == 0 || irqs.len() < cs {
        Seq::empty()
    } else {
        seq![irq_info(path, name, irqs.subrange(0, cs as int), alias)] + irq_chunks(
            irqs.skip(cs as int),
            cs,
            path,
            name,
            alias,
        )
    }
}

/// Whether every cell of `c` is a number.
pub open spec fn all_num(c: Seq<CellV>) -> bool {
    forall|i: int| 0 <= i < c.len() ==> (#[trigger] c[i]) is Num
}

/// The interrupts of an `interrupts-extended` list from position `i`: each
/// specifier is a parent cell followed by that parent's `#interrupt-cells`
/// cells; reading stops at an unknown parent or a short specifier, and a
/// specifier holding a reference is skipped.
pub open spec fn extended_spec(
    ctrl: Map<Seq<char>, (u32, Seq<char>)>,
    cells: Seq<CellV>,
    i: int,
    path: Seq<char>,
    name: Seq<char>,
) -> Seq<InterruptInfoV>
    decreases cells.len() - i,
{
    if i < 0 || i >= cells.len() {
        Seq::empty()
    } else {
        let parent = match cells[i] {
            CellV::Num(p) => ParentRefV::Phandle(p as u32),
            CellV::Ref(l, _) => ParentRefV::Name(l),
        };
        match resolve(ctrl, parent) {
            None => Seq::empty(),
            Some((cs, alias)) => if i + 1 + cs > cells.len() {
                Seq::empty()
            } else {
                let chunk = cells.subrange(i + 1, i + 1 + cs);
                (if all_num(chunk) {
                    seq![irq_info(path, name, crate::dts::tree::nums_of(chunk), alias)]
                } else {
                    Seq::empty()
                }) + extended_spec(ctrl, cells, i + 1 + cs, path, name)
            },
        }
    }
}

/// The numbers of property `key` when there are any.
pub open spec fn nums_prop(node: NodeV, key: Seq<char>) -> Option<Seq<u64>> {
    match node.prop_data(key) {
        Some(d) => if all_nums(d).len() > 0 {
            Some(all_nums(d))
        } else {
            None
        },
        None => None,
    }
}

/// The cells of property `key` when there are any.
pub open spec fn cells_prop(node: NodeV, key: Seq<char>) -> Option<Seq<CellV>> {
    match node.prop_data(key) {
        Some(d) => if all_cells(d).len() > 0 {
            Some(all_cells(d))
        } else {
            None
        },
        None => None,
    }
}

/// The output text: one line `path,name,chunk_size,cells,parent` per interrupt.
pub open spec fn irqs_text(irqs: Seq<InterruptInfoV>) -> Seq<char>
    decreases irqs.len(),
{
    if irqs.len() == 0 {
        Seq::empty()
    } else {
        let r = irqs.last();
        irqs_text(irqs.drop_last()) + r.alias + seq![','] + r.name + seq![','] + dec_digits(
            r.chunk_size as nat,
        ) + seq![','] + r.cells_hex + seq![','] + r.parent_alias + seq!['\n']
    }
}

// ---------------------------------------------------------------------------
// Implementation
// ---------------------------------------------------------------------------

impl InterruptsExtractor {
    /// The interrupts found so far.
    pub fn interrupts(&self) -> (r: &Vec<InterruptInfo>)
        ensures
            irqs_view(r@) == self@.interrupts,
    {
        &self.interrupts
    }

    /// Creates a new `InterruptsExtractor`.
    pub fn new() -> (r: Self)
        ensures
            r@ == (InterruptsExtractorV {
                parents: seq![ParentRefV::Root],
                path: Seq::empty(),
                controllers: Map::empty(),
                interrupts: Seq::empty(),
            }),
    {
        let r = Self {
            parent_stack: vec![ParentRef::Root],
            path_stack: Vec::new(),
            controllers: StrMap::new(),
            interrupts: Vec::new(),
        };
        proof {
            assert(r@.parents =~= seq![ParentRefV::Root]);
            assert(r@.path =~= Seq::<Seq<char>>::empty());
            assert(r@.controllers =~= Map::<Seq<char>, (u32, Seq<char>)>::empty());
            assert(r@.interrupts =~= Seq::<InterruptInfoV>::empty());
        }
        r
    }

    /// Creates an extractor with all interrupt controllers indexed before the
    /// main walk. This is required for DTS files that use numeric phandles or
    /// reference controllers before their nodes are defined.
    pub fn from_root(root: &Node) -> (r: Self)
        ensures
            r@ == (InterruptsExtractorV {
                parents: seq![ParentRefV::Root],
                path: Seq::empty(),
                controllers: collect_spec(Map::empty(), root@, seq!['/']),
                interrupts: Seq::empty(),
            }),
    {
        let mut extractor = Self::new();
        extractor.collect_controllers(root, "/");
        proof {
            reveal_strlit("/");
            assert("/"@ =~= seq!['/']);
        }
        extractor
    }

    /// Generates a CSV-like output string of the extracted interrupts.
    ///
    /// Format: full_path,name,chunk_size,cells_hex,parent_full_path
    pub fn output(&self) -> (r: String)
        ensures
            r@ == irqs_text(self@.interrupts),
    {
        let mut output = String::new();
        let mut i: usize = 0;
        while i < self.interrupts.len()
            invariant
                i <= self.interrupts.len(),
                output@ == irqs_text(irqs_view(self.interrupts@).subrange(0, i as int)),
            decreases self.interrupts.len() - i,
        {
            let irq = &self.interrupts[i];
            let size = fmt_dec(irq.chunk_size as u64);
            let line = concat(irq.alias.as_str(), ",");
            let line = concat(line.as_str(), irq.name.as_str());
            let line = concat(line.as_str(), ",");
            let line = concat(line.as_str(), size.as_str());
            let line = concat(line.as_str(), ",");
            let line = concat(line.as_str(), irq.cells_hex.as_str());
            let line = concat(line.as_str(), ",");
            let line = concat(line.as_str(), irq.parent_alias.as_str());
            let line = concat(line.as_str(), "\n");
            output.append(line.as_str());
            proof {
                reveal_strlit(",");
                reveal_strlit("\n");
                let v = irqs_view(self.interrupts@);
                assert(v[i as int] == irq@);
                assert(v.subrange(0, i + 1).drop_last() =~= v.subrange(0, i as int));
                assert(output@ =~= irqs_text(v.subrange(0, i + 1)));
            }
            i = i + 1;
        }
        proof {
            assert(irqs_view(self.interrupts@).subrange(0, self.interrupts.len() as int)
                =~= irqs_view(self.interrupts@));
        }
        output
    }

    /// Registers `node` (at `path`) in the controller table when it is an
    /// interrupt controller.
    fn register_controller(&mut self, node: &Node, path: &str)
        ensures
            final(self)@ == (InterruptsExtractorV {
                controllers: insert_all(old(self)@.controllers, controller_entries(node@, path@)),
                ..old(self)@
            }),
    {
        let ghost s = self@;
        let is_controller = node_has_prop(node, "interrupt-controller");
        if !is_controller {
            proof {
                assert(controller_entries(node@, path@) =~= Seq::<
                    (Seq<char>, (u32, Seq<char>)),
                >::empty());
            }
            return ;
        }
        let cells = match node_u32_prop(node, "#interrupt-cells") {
            Some(c) => c,
            None => 1,
        };
        let ghost e = controller_entries(node@, path@);
        if let Node::Existing { labels, .. } = node {
            let ghost by_label = node@.labels().map_values(|l: Seq<char>| (l, (cells, path@)));
            let mut i: usize = 0;
            while i < labels.len()
                invariant
                    i <= labels.len(),
                    node@.labels() == strings_view(labels@),
                    by_label == node@.labels().map_values(|l: Seq<char>| (l, (cells, path@))),
                    self@ == (InterruptsExtractorV {
                        controllers: insert_all(s.controllers, by_label.subrange(0, i as int)),
                        ..s
                    }),
                decreases labels.len() - i,
            {
                let ghost before = self.controllers@;
                let v = (cells, String::from_str(path));
                let ghost gv = v;
                self.controllers.insert(labels[i].clone(), v);
                proof {
                    lemma_ctrl_view_insert(before, labels@[i as int]@, gv);
                    assert(by_label.subrange(0, i + 1).drop_last() =~= by_label.subrange(
                        0,
                        i as int,
                    ));
                    assert(by_label[i as int] == (labels@[i as int]@, (cells, path@)));
                }
                i = i + 1;
            }
            proof {
                assert(by_label.subrange(0, labels.len() as int) =~= by_label);
            }
        }
        let ghost by_label = node@.labels().map_values(|l: Seq<char>| (l, (cells, path@)));
        let ghost by_ph: Seq<(Seq<char>, (u32, Seq<char>))> = match u32_prop(node@, "phandle"@) {
            Some(p) => seq![(dec_digits(p as nat), (cells, path@))],
            None => Seq::empty(),
        };
        let ghost by_linux: Seq<(Seq<char>, (u32, Seq<char>))> = match u32_prop(
            node@,
            "linux,phandle"@,
        ) {
            Some(p) => seq![(dec_digits(p as nat), (cells, path@))],
            None => Seq::empty(),
        };
        assert(self@.controllers == insert_all(s.controllers, by_label));
        if let Some(phandle) = node_u32_prop(node, "phandle") {
            let ghost before = self.controllers@;
            let v = (cells, String::from_str(path));
            let ghost gv = v;
            self.controllers.insert(fmt_dec(phandle as u64), v);
            proof {
                lemma_ctrl_view_insert(before, dec_digits(phandle as nat), gv);
                lemma_insert_all_one(ctrl_view(before), (dec_digits(phandle as nat), (cells, path@)));
            }
        }
        assert(self@.controllers == insert_all(insert_all(s.controllers, by_label), by_ph));
        let ghost mid = self@.controllers;
        if let Some(phandle) = node_u32_prop(node, "linux,phandle") {
            let ghost before = self.controllers@;
            let v = (cells, String::from_str(path));
            let ghost gv = v;
            self.controllers.insert(fmt_dec(phandle as u64), v);
            proof {
                lemma_ctrl_view_insert(before, dec_digits(phandle as nat), gv);
                lemma_insert_all_one(ctrl_view(before), (dec_digits(phandle as nat), (cells, path@)));
            }
        }
        assert(self@.controllers == insert_all(mid, by_linux));
        proof {
            lemma_insert_all_concat(s.controllers, by_label, by_ph);
            lemma_insert_all_concat(s.controllers, by_label + by_ph, by_linux);
            assert(e == by_label + by_ph + by_linux);
        }
    }

    fn collect_controllers(&mut self, node: &Node, path: &str)
        ensures
            final(self)@ == (InterruptsExtractorV {
                controllers: collect_spec(old(self)@.controllers, node@, path@),
                ..old(self)@
            }),
        decreases node,
    {
        if let Node::Existing { children, .. } = node {
            self.register_controller(node, path);
            let ghost s1 = self@;
            let ghost cv = children_view(children@);
            proof {
                lemma_children_view(children@);
            }
            let mut i: usize = 0;
            while i < children.len()
                invariant
                    i <= children.len(),
                    *node is Existing,
                    *children == node->children,
                    cv == children_view(children@),
                    cv.len() == children@.len(),
                    forall|j: int|
                        0 <= j < children@.len() ==> #[trigger] cv[j] == (
                            children@[j].0@,
                            children@[j].1@,
                        ),
                    collect_children(s1.controllers, cv, path@, 0) == collect_children(
                        self@.controllers,
                        cv,
                        path@,
                        i as int,
                    ),
                    self@ == (InterruptsExtractorV { controllers: self@.controllers, ..s1 }),
                decreases children.len() - i,
            {
                let child_name = children[i].0.as_str();
                let sub_path = if str_eq(path, "/") {
                    concat("/", child_name)
                } else {
                    let p = concat(path, "/");
                    concat(p.as_str(), child_name)
                };
                proof {
                    reveal_strlit("/");
                    assert("/"@ =~= seq!['/']);
                    assert(sub_path@ == child_path(path@, cv[i as int].0));
                    assert(decreases_to!(*node => *children));
                    assert(decreases_to!(*children => children@));
                    assert(decreases_to!(children@ => children@[i as int]));
                    assert(decreases_to!(children@[i as int] => children@[i as int].1));
                }
                self.collect_controllers(&children[i].1, sub_path.as_str());
                i = i + 1;
            }
        }
    }

    // The interrupt parent that `node` names itself, if any.
    fn get_parent_ref(node: &Node) -> (r: Option<ParentRef>)
        ensures
            match r {
                Some(p) => node_parent_ref(node@) == Some(p@),
                None => node_parent_ref(node@) is None,
            },
    {
        if let Some(data) = node_prop_data(node, "interrupt-parent") {
            let ghost dv = datas_view(data@);
            let mut i: usize = 0;
            proof {
                assert(dv.skip(0) =~= dv);
            }
            while i < data.len()
                invariant
                    i <= data.len(),
                    dv == datas_view(data@),
                    node@.prop_data("interrupt-parent"@) == Some(dv),
                    parent_ref_of(dv) == parent_ref_of(dv.skip(i as int)),
                decreases data.len() - i,
            {
                let ghost rest = dv.skip(i as int);
                proof {
                    assert(rest.len() > 0);
                    assert(rest[0] == data@[i as int]@);
                    assert(rest.skip(1) =~= dv.skip(i + 1));
                }
                match &data[i] {
                    Data::Cells(_, cells) => {
                        if cells.len() > 0 {
                            proof {
                                assert(cells_view(cells@)[0] == cells@[0]@);
                            }
                            match &cells[0] {
                                Cell::Num(val) => {
                                    return Some(ParentRef::Phandle(*val as u32));
                                },
                                Cell::Ref(name, _) => {
                                    return Some(ParentRef::Name(name.clone()));
                                },
                            }
                        }
                    },
                    Data::Reference(name, _) => {
                        return Some(ParentRef::Name(name.clone()));
                    },
                    _ => {},
                }
                i = i + 1;
            }
            proof {
                assert(dv.skip(data.len() as int).len() == 0);
            }
        }
        None
    }

    // The numbers of property `name`, when there are any.
    fn get_cells_prop(node: &Node, name: &str) -> (r: Option<Vec<u64>>)
        ensures
            match r {
                Some(v) => nums_prop(node@, name@) == Some(v@),
                None => nums_prop(node@, name@) is None,
            },
    {
        if let Some(data) = node_prop_data(node, name) {
            let result = flatten_nums(data);
            if result.len() > 0 {
                return Some(result);
            }
        }
        None
    }

    // The cells of property `name`, when there are any.
    fn get_cells_with_refs_prop(node: &Node, name: &str) -> (r: Option<Vec<Cell>>)
        ensures
            match r {
                Some(v) => cells_prop(node@, name@) == Some(cells_view(v@)),
                None => cells_prop(node@, name@) is None,
            },
    {
        if let Some(data) = node_prop_data(node, name) {
            let result = flatten_cells(data);
            if result.len() > 0 {
                return Some(result);
            }
        }
        None
    }

    // The controller entry for `parent`.
    fn resolve_parent(&self, parent: &ParentRef) -> (r: Option<(u32, String)>)
        ensures
            match r {
                Some(e) => resolve(self@.controllers, parent@) == Some((e.0, e.1@)),
                None => resolve(self@.controllers, parent@) is None,
            },
    {
        let found = match parent {
            ParentRef::Phandle(p) => {
                let key = fmt_dec(*p as u64);
                self.controllers.get(key.as_str())
            },
            ParentRef::Name(n) => self.controllers.get(n.as_str()),
            ParentRef::Root => None,
        };
        match found {
            Some(e) => Some((e.0, e.1.clone())),
            None => None,
        }
    }

    fn push_interrupt(&mut self, full_path: &str, name: &str, chunk: &Vec<u64>, parent_alias: &str)
        ensures
            final(self)@ == (InterruptsExtractorV {
                interrupts: old(self)@.interrupts.push(
                    irq_info(full_path@, name@, chunk@, parent_alias@),
                ),
                ..old(self)@
            }),
    {
        let mut parts: Vec<String> = Vec::new();
        let mut i: usize = 0;
        while i < chunk.len()
            invariant
                i <= chunk.len(),
                strings_view(parts@) == chunk@.subrange(0, i as int).map_values(
                    |c: u64| hex_prefixed(c as nat),
                ),
            decreases chunk.len() - i,
        {
            let h = fmt_hex_prefixed(chunk[i] as u128);
            let ghost old_parts = parts@;
            parts.push(h);
            proof {
                let target = chunk@.subrange(0, i + 1).map_values(|c: u64| hex_prefixed(c as nat));
                let prev = chunk@.subrange(0, i as int).map_values(|c: u64| hex_prefixed(c as nat));
                assert(strings_view(old_parts).len() == old_parts.len());
                assert forall|k: int| 0 <= k < parts@.len() implies #[trigger] strings_view(parts@)[k]
                    == target[k] by {
                    if k < old_parts.len() {
                        assert(parts@[k] == old_parts[k]);
                        assert(strings_view(old_parts)[k] == old_parts[k]@);
                        assert(prev[k] == target[k]);
                    }
                }
                assert(strings_view(parts@) =~= target);
            }
            i = i + 1;
        }
        let cells_str = join_strings(&parts, ",");
        proof {
            reveal_strlit(",");
            assert(chunk@.subrange(0, chunk.len() as int) =~= chunk@);
            assert(","@ =~= seq![',']);
        }
        let ghost before = irqs_view(self.interrupts@);
        self.interrupts.push(
            InterruptInfo {
                alias: String::from_str(full_path),
                name: String::from_str(name),
                chunk_size: chunk.len(),
                cells_hex: cells_str,
                parent_alias: String::from_str(parent_alias),
            },
        );
        proof {
            assert(irqs_view(self.interrupts@) =~= before.push(
                irq_info(full_path@, name@, chunk@, parent_alias@),
            ));
        }
    }

    fn push_interrupts_extended(&mut self, full_path: &str, name: &str, cells: &Vec<Cell>)
        ensures
            final(self)@ == (InterruptsExtractorV {
                interrupts: old(self)@.interrupts + extended_spec(
                    old(self)@.controllers,
                    cells_view(cells@),
                    0,
                    full_path@,
                    name@,
                ),
                ..old(self)@
            }),
    {
        let ghost s = self@;
        let ghost cv = cells_view(cells@);
        let mut index: usize = 0;
        proof {
            assert(s.interrupts + Seq::empty() =~= s.interrupts);
        }
        while index < cells.len()
            invariant_except_break
                cv == cells_view(cells@),
                cv.len() == cells@.len(),
                index <= cells.len(),
                self@ == (InterruptsExtractorV { interrupts: self@.interrupts, ..s }),
                s.interrupts + extended_spec(s.controllers, cv, 0, full_path@, name@)
                    == self@.interrupts + extended_spec(
                    s.controllers,
                    cv,
                    index as int,
                    full_path@,
                    name@,
                ),
            ensures
                self@ == (InterruptsExtractorV {
                    interrupts: s.interrupts + extended_spec(
                        s.controllers,
                        cv,
                        0,
                        full_path@,
                        name@,
                    ),
                    ..s
                }),
            decreases cells.len() - index,
        {
            let parent = match &cells[index] {
                Cell::Num(phandle) => ParentRef::Phandle(*phandle as u32),
                Cell::Ref(label, _) => ParentRef::Name(label.clone()),
            };
            let ghost at = index as int;
            proof {
                assert(cv[at] == cells@[at]@);
            }
            index = index + 1;
            let found = self.resolve_parent(&parent);
            let (chunk_size, parent_alias) = match found {
                Some(e) => e,
                None => {
                    proof {
                        assert(extended_spec(s.controllers, cv, at, full_path@, name@)
                            =~= Seq::<InterruptInfoV>::empty());
                        assert(self@.interrupts + Seq::<InterruptInfoV>::empty() =~= self@.interrupts);
                    }
                    break ;
                },
            };
            let chunk_size = chunk_size as usize;
            if chunk_size > cells.len() - index {
                proof {
                    assert(extended_spec(s.controllers, cv, at, full_path@, name@)
                        =~= Seq::<InterruptInfoV>::empty());
                    assert(self@.interrupts + Seq::<InterruptInfoV>::empty() =~= self@.interrupts);
                }
                break ;
            }
            let mut chunk: Vec<u64> = Vec::new();
            let mut valid = true;
            let mut j: usize = index;
            while j < index + chunk_size
                invariant_except_break
                    index <= j <= index + chunk_size <= cells.len(),
                    cv == cells_view(cells@),
                    valid,
                    all_num(cv.subrange(index as int, j as int)),
                    chunk@ == crate::dts::tree::nums_of(cv.subrange(index as int, j as int)),
                ensures
                    valid ==> j == index + chunk_size,
                    valid ==> all_num(cv.subrange(index as int, j as int)),
                    valid ==> chunk@ == crate::dts::tree::nums_of(
                        cv.subrange(index as int, j as int),
                    ),
                    !valid ==> !all_num(cv.subrange(index as int, (index + chunk_size) as int)),
                decreases index + chunk_size - j,
            {
                proof {
                    assert(cv.subrange(index as int, j + 1).drop_last() =~= cv.subrange(
                        index as int,
                        j as int,
                    ));
                    assert(cv[j as int] == cells@[j as int]@);
                }
                match &cells[j] {
                    Cell::Num(value) => chunk.push(*value),
                    Cell::Ref(_, _) => {
                        valid = false;
                        proof {
                            assert(cv.subrange(index as int, (index + chunk_size) as int)[j - index]
                                == cv[j as int]);
                        }
                        break ;
                    },
                }
                proof {
                    let a = cv.subrange(index as int, j + 1);
                    let b = cv.subrange(index as int, j as int);
                    assert(a.drop_last() =~= b);
                    assert forall|k: int| 0 <= k < a.len() implies (#[trigger] a[k]) is Num by {
                        if k < b.len() {
                            assert(a[k] == b[k]);
                        } else {
                            assert(a[k] == cv[j as int]);
                        }
                    }
                }
                j = j + 1;
            }
            let ghost before = self@.interrupts;
            if valid {
                self.push_interrupt(full_path, name, &chunk, parent_alias.as_str());
            }
            proof {
                let chunkv = cv.subrange(index as int, (index + chunk_size) as int);
                assert(extended_spec(s.controllers, cv, at, full_path@, name@) == (if all_num(
                    chunkv,
                ) {
                    seq![
                        irq_info(
                            full_path@,
                            name@,
                            crate::dts::tree::nums_of(chunkv),
                            parent_alias@,
                        ),
                    ]
                } else {
                    Seq::empty()
                }) + extended_spec(
                    s.controllers,
                    cv,
                    (index + chunk_size) as int,
                    full_path@,
                    name@,
                ));
                if valid {
                    assert(self@.interrupts + extended_spec(
                        s.controllers,
                        cv,
                        (index + chunk_size) as int,
                        full_path@,
                        name@,
                    ) =~= before + extended_spec(s.controllers, cv, at, full_path@, name@));
                } else {
                    assert(before + extended_spec(s.controllers, cv, at, full_path@, name@)
                        =~= self@.interrupts + extended_spec(
                        s.controllers,
                        cv,
                        (index + chunk_size) as int,
                        full_path@,
                        name@,
                    ));
                }
            }
            index = index + chunk_size;
        }
    }
}

/// The interrupts of `node` listed in `interrupts`, against the parent
/// `cur` resolved in `ctrl`.
pub open spec fn plain_irqs(
    ctrl: Map<Seq<char>, (u32, Seq<char>)>,
    cur: ParentRefV,
    node: NodeV,
    path: Seq<char>,
    name: Seq<char>,
) -> Seq<InterruptInfoV> {
    match nums_prop(node, "interrupts"@) {
        Some(irqs) => match resolve(ctrl, cur) {
            Some((cs, alias)) => irq_chunks(irqs, cs as nat, path, name, alias),
            None => Seq::empty(),
        },
        None => Seq::empty(),
    }
}

/// The interrupts of `node` listed in `interrupts-extended`.
pub open spec fn extended_irqs(
    ctrl: Map<Seq<char>, (u32, Seq<char>)>,
    node: NodeV,
    path: Seq<char>,
    name: Seq<char>,
) -> Seq<InterruptInfoV> {
    match cells_prop(node, "interrupts-extended"@) {
        Some(cells) => extended_spec(ctrl, cells, 0, path, name),
        None => Seq::empty(),
    }
}

impl Visitor for InterruptsExtractor {
    open spec fn ready(s: InterruptsExtractorV) -> bool {
        true
    }

    proof fn lemma_ready_kept(s: InterruptsExtractorV, name: Seq<char>, node: NodeV) {
    }

    open spec fn spec_enter(s: InterruptsExtractorV, name: Seq<char>, node: NodeV) -> (
        InterruptsExtractorV,
        bool,
    ) {
        let path = s.path.push(name);
        let fp = full_path_of(path);
        let ctrl = insert_all(s.controllers, controller_entries(node, fp));
        let cur = match node_parent_ref(node) {
            Some(p) => p,
            None => if s.parents.len() > 0 {
                s.parents.last()
            } else {
                ParentRefV::Root
            },
        };
        (
            InterruptsExtractorV {
                parents: s.parents.push(cur),
                path,
                controllers: ctrl,
                interrupts: s.interrupts + plain_irqs(ctrl, cur, node, fp, name) + extended_irqs(
                    ctrl,
                    node,
                    fp,
                    name,
                ),
            },
            true,
        )
    }

    open spec fn spec_exit(s: InterruptsExtractorV, name: Seq<char>, node: NodeV) -> InterruptsExtractorV {
        InterruptsExtractorV {
            parents: crate::visitors::reg_extractor::pop_seq(s.parents),
            path: crate::visitors::reg_extractor::pop_seq(s.path),
            ..s
        }
    }

    fn enter_node(&mut self, name: &str, node: &Node) -> (r: bool) {
        let ghost s = self@;
        self.path_stack.push(String::from_str(name));
        proof {
            assert(strings_view(self.path_stack@) =~= s.path.push(name@));
        }
        let full_path = full_path(&self.path_stack);
        // Register this node when it is a controller.
        self.register_controller(node, full_path.as_str());
        let ghost s1 = self@;
        // The interrupt parent: named here, or inherited.
        let current_parent = match Self::get_parent_ref(node) {
            Some(p) => p,
            None => match self.parent_stack.last() {
                Some(p) => p.copy(),
                None => ParentRef::Root,
            },
        };
        proof {
            if node_parent_ref(node@) is None && self.parent_stack@.len() > 0 {
                assert(s1.parents.last() == self.parent_stack@.last()@);
            }
        }
        let ghost cur = current_parent@;
        // `interrupts`, read against the parent.
        if let Some(irqs) = Self::get_cells_prop(node, "interrupts") {
            if let Some((cells, parent_alias)) = self.resolve_parent(&current_parent) {
                let chunk_size = cells as usize;
                let ghost target = irq_chunks(irqs@, cells as nat, full_path@, name@, parent_alias@);
                if chunk_size > 0 {
                    let mut pos: usize = 0;
                    proof {
                        assert(irqs@.skip(0) =~= irqs@);
                        assert(s1.interrupts + target =~= irqs_view(self.interrupts@) + irq_chunks(
                            irqs@.skip(0),
                            cells as nat,
                            full_path@,
                            name@,
                            parent_alias@,
                        ));
                    }
                    while pos < irqs.len()
                        invariant_except_break
                            pos <= irqs.len(),
                            chunk_size == cells,
                            0 < chunk_size,
                            self@ == (InterruptsExtractorV { interrupts: self@.interrupts, ..s1 }),
                            s1.interrupts + target == self@.interrupts + irq_chunks(
                                irqs@.skip(pos as int),
                                cells as nat,
                                full_path@,
                                name@,
                                parent_alias@,
                            ),
                        ensures
                            self@ == (InterruptsExtractorV { interrupts: s1.interrupts + target, ..s1 }),
                        decreases irqs.len() - pos,
                    {
                        let ghost rest = irqs@.skip(pos as int);
                        if chunk_size > irqs.len() - pos {
                            proof {
                                assert(self@.interrupts + Seq::<InterruptInfoV>::empty() =~= self@.interrupts);
                            }
                            break ;
                        }
                        let mut chunk: Vec<u64> = Vec::new();
                        let mut j = pos;
                        while j < pos + chunk_size
                            invariant
                                pos <= j <= pos + chunk_size <= irqs.len(),
                                chunk@ == irqs@.subrange(pos as int, j as int),
                            decreases pos + chunk_size - j,
                        {
                            chunk.push(irqs[j]);
                            proof {
                                assert(chunk@ =~= irqs@.subrange(pos as int, j + 1));
                            }
                            j = j + 1;
                        }
                        let ghost before = self@.interrupts;
                        self.push_interrupt(full_path.as_str(), name, &chunk, parent_alias.as_str());
                        proof {
                            assert(rest.subrange(0, chunk_size as int) =~= chunk@);
                            assert(rest.skip(chunk_size as int) =~= irqs@.skip((pos + chunk_size) as int));
                            let next = irq_chunks(
                                irqs@.skip((pos + chunk_size) as int),
                                cells as nat,
                                full_path@,
                                name@,
                                parent_alias@,
                            );
                            assert(before + (seq![irq_info(full_path@, name@, chunk@, parent_alias@)]
                                + next) =~= self@.interrupts + next);
                        }
                        pos = pos + chunk_size;
                    }
                } else {
                    proof {
                        assert(self@.interrupts + target =~= self@.interrupts);
                    }
                }
            }
        }
        proof {
            assert(self@.interrupts == s1.interrupts + plain_irqs(
                s1.controllers,
                cur,
                node@,
                full_path@,
                name@,
            ));
        }
        let ghost s2 = self@;
        if let Some(cells) = Self::get_cells_with_refs_prop(node, "interrupts-extended") {
            self.push_interrupts_extended(full_path.as_str(), name, &cells);
        } else {
            proof {
                assert(s2.interrupts + Seq::<InterruptInfoV>::empty() =~= s2.interrupts);
            }
        }
        let ghost before_push = self.parent_stack@;
        self.parent_stack.push(current_parent);
        proof {
            assert(self.parent_stack@.map_values(|p: ParentRef| p@) =~= before_push.map_values(
                |p: ParentRef| p@,
            ).push(cur));
            let sp = Self::spec_enter(s, name@, node@).0;
            assert(self@.parents == sp.parents);
            assert(self@.path == sp.path);
            assert(self@.controllers == sp.controllers);
            assert(self@.interrupts =~= sp.interrupts);
        }
        true
    }

    fn exit_node(&mut self, _name: &str, _node: &Node) {
        let ghost s = self@;
        let ghost ps = self.parent_stack@;
        self.parent_stack.pop();
        self.path_stack.pop();
        proof {
            if s.path.len() > 0 {
                assert(strings_view(self.path_stack@) =~= s.path.drop_last());
            }
            if ps.len() > 0 {
                assert(self.parent_stack@.map_values(|p: ParentRef| p@) =~= ps.map_values(
                    |p: ParentRef| p@,
                ).drop_last());
            }
        }
    }
}

proof fn lemma_insert_all_concat<K, V>(m: Map<K, V>, a: Seq<(K, V)>, b: Seq<(K, V)>)
    ensures
        insert_all(m, a + b) == insert_all(insert_all(m, a), b),
    decreases b.len(),
{
    if b.len() == 0 {
        assert(a + b =~= a);
    } else {
        lemma_insert_all_concat(m, a, b.drop_last());
        assert((a + b).drop_last() =~= a + b.drop_last());
    }
}

proof fn lemma_insert_all_one<K, V>(m: Map<K, V>, x: (K, V))
    ensures
        insert_all(m, seq![x]) == m.insert(x.0, x.1),
{
    assert(seq![x].drop_last() =~= Seq::<(K, V)>::empty());
    assert(seq![x].last() == x);
    assert(insert_all(m, Seq::<(K, V)>::empty()) == m);
}

/// Walking a subtree leaves the interrupt-parent stack and the path as they
/// were: leaving each node pops what entering it pushed.
pub proof fn lemma_interrupts_walk_restores(s: InterruptsExtractorV, name: Seq<char>, node: NodeV)
    ensures
        walk_spec::<InterruptsExtractor>(s, name, node).parents == s.parents,
        walk_spec::<InterruptsExtractor>(s, name, node).path == s.path,
{
    let p = |v: InterruptsExtractorV| (v.parents, v.path);
    assert forall|t: InterruptsExtractorV, u: InterruptsExtractorV, nm: Seq<char>, nd: NodeV|
        #![trigger InterruptsExtractor::spec_enter(t, nm, nd), InterruptsExtractor::spec_exit(u, nm, nd)]
        p(u) == p(InterruptsExtractor::spec_enter(t, nm, nd).0) implies p(InterruptsExtractor::spec_exit(u, nm, nd)) == p(t) by {
        let e = InterruptsExtractor::spec_enter(t, nm, nd).0;
        assert(e.parents.drop_last() =~= t.parents);
        assert(e.path.drop_last() =~= t.path);
    }
    lemma_walk_keeps::<InterruptsExtractor, (Seq<ParentRefV>, Seq<Seq<char>>)>(p, s, name, node);
}

/// Walking a subtree only appends to the interrupts found so far.
pub proof fn lemma_interrupts_walk_appends(s: InterruptsExtractorV, name: Seq<char>, node: NodeV)
    ensures
        s.interrupts.is_prefix_of(walk_spec::<InterruptsExtractor>(s, name, node).interrupts),
{
    let q = |v: InterruptsExtractorV| v.interrupts;
    assert forall|t: InterruptsExtractorV, nm: Seq<char>, nd: NodeV|
        #[trigger] q(t).is_prefix_of(q(InterruptsExtractor::spec_enter(t, nm, nd).0)) by {
        let e = InterruptsExtractor::spec_enter(t, nm, nd).0;
        assert(t.interrupts =~= e.interrupts.subrange(0, t.interrupts.len() as int));
    }
    assert forall|u: InterruptsExtractorV, nm: Seq<char>, nd: NodeV|
        #[trigger] q(u).is_prefix_of(q(InterruptsExtractor::spec_exit(u, nm, nd))) by {
        let e = InterruptsExtractor::spec_exit(u, nm, nd);
        assert(u.interrupts =~= e.interrupts.subrange(0, u.interrupts.len() as int));
    }
    lemma_walk_appends::<InterruptsExtractor, InterruptInfoV>(q, s, name, node);
}

/// The interrupt parent in effect for `node` under the stack `parents`: the
/// one it sets, else the one in effect for its parent.
pub open spec fn effective_parent(parents: Seq<ParentRefV>, node: NodeV) -> ParentRefV {
    match node_parent_ref(node) {
        Some(p) => p,
        None => if parents.len() > 0 {
            parents.last()
        } else {
            ParentRefV::Root
        },
    }
}

/// The interrupt parent in effect for a node is that of its nearest
/// ancestor-or-self that sets one: when child `i` of `node` is entered
/// (after its earlier siblings were walked), the parent in effect for it is
/// the one it sets, else the one in effect for `node`.
pub proof fn lemma_interrupt_parent_nearest(
    s: InterruptsExtractorV,
    name: Seq<char>,
    node: NodeV,
    i: int,
)
    requires
        0 <= i < node.children().len(),
    ensures
        ({
            let s1 = InterruptsExtractor::spec_enter(s, name, node).0;
            let t = walk_children::<InterruptsExtractor>(s1, node.children().subrange(0, i), 0);
            let c = node.children()[i];
            InterruptsExtractor::spec_enter(t, c.0, c.1).0.parents.last() == effective_parent(
                seq![effective_parent(s.parents, node)],
                c.1,
            )
        }),
{
    let p = |v: InterruptsExtractorV| (v.parents, v.path);
    assert forall|t: InterruptsExtractorV, u: InterruptsExtractorV, nm: Seq<char>, nd: NodeV|
        #![trigger InterruptsExtractor::spec_enter(t, nm, nd), InterruptsExtractor::spec_exit(u, nm, nd)]
        p(u) == p(InterruptsExtractor::spec_enter(t, nm, nd).0) implies p(InterruptsExtractor::spec_exit(u, nm, nd)) == p(t) by {
        let e = InterruptsExtractor::spec_enter(t, nm, nd).0;
        assert(e.parents.drop_last() =~= t.parents);
        assert(e.path.drop_last() =~= t.path);
    }
    let s1 = InterruptsExtractor::spec_enter(s, name, node).0;
    lemma_walk_children_keeps::<InterruptsExtractor, (Seq<ParentRefV>, Seq<Seq<char>>)>(
        p,
        s1,
        node.children().subrange(0, i),
        0,
    );
    let t = walk_children::<InterruptsExtractor>(s1, node.children().subrange(0, i), 0);
    assert(t.parents == s1.parents);
    assert(s1.parents.last() == effective_parent(s.parents, node));
}

// ---------------------------------------------------------------------------
// What a whole walk finds
// ---------------------------------------------------------------------------

/// The interrupts found under `node` (named `name`, below the path `path`),
/// in depth-first order, starting from the controllers `ctrl` and the stack
/// of parents in effect `parents`; each node first registers itself when it
/// is a controller. Also gives the controllers known after the subtree.
pub open spec fn tree_irqs(
    ctrl: Map<Seq<char>, (u32, Seq<char>)>,
    parents: Seq<ParentRefV>,
    path: Seq<Seq<char>>,
    name: Seq<char>,
    node: NodeV,
) -> (Map<Seq<char>, (u32, Seq<char>)>, Seq<InterruptInfoV>)
    decreases node, 0nat,
{
    let path2 = path.push(name);
    let fp = full_path_of(path2);
    let ctrl2 = insert_all(ctrl, controller_entries(node, fp));
    let cur = effective_parent(parents, node);
    let here = plain_irqs(ctrl2, cur, node, fp, name) + extended_irqs(ctrl2, node, fp, name);
    match node {
        NodeV::Existing { children, .. } => {
            let (c3, rest) = children_irqs(ctrl2, parents.push(cur), path2, children, 0);
            (c3, here + rest)
        },
        NodeV::Deleted { .. } => (ctrl2, here),
    }
}

/// `tree_irqs` of `children[i..]` in turn.
pub open spec fn children_irqs(
    ctrl: Map<Seq<char>, (u32, Seq<char>)>,
    parents: Seq<ParentRefV>,
    path: Seq<Seq<char>>,
    children: Seq<(Seq<char>, NodeV)>,
    i: int,
) -> (Map<Seq<char>, (u32, Seq<char>)>, Seq<InterruptInfoV>)
    decreases children, children.len() - i,
{
    if 0 <= i < children.len() {
        let (c1, a) = tree_irqs(ctrl, parents, path, children[i].0, children[i].1);
        let (c2, b) = children_irqs(c1, parents, path, children, i + 1);
        (c2, a + b)
    } else {
        (ctrl, Seq::empty())
    }
}

proof fn lemma_irq_walk(s: InterruptsExtractorV, name: Seq<char>, node: NodeV)
    ensures
        walk_spec::<InterruptsExtractor>(s, name, node).controllers == tree_irqs(
            s.controllers,
            s.parents,
            s.path,
            name,
            node,
        ).0,
        walk_spec::<InterruptsExtractor>(s, name, node).interrupts == s.interrupts + tree_irqs(
            s.controllers,
            s.parents,
            s.path,
            name,
            node,
        ).1,
    decreases node, 0nat,
{
    let s1 = InterruptsExtractor::spec_enter(s, name, node).0;
    let fp = full_path_of(s.path.push(name));
    let ctrl2 = insert_all(s.controllers, controller_entries(node, fp));
    let cur = effective_parent(s.parents, node);
    let here = plain_irqs(ctrl2, cur, node, fp, name) + extended_irqs(ctrl2, node, fp, name);
    assert(s1.interrupts =~= s.interrupts + here);
    if let NodeV::Existing { children, .. } = node {
        lemma_irq_walk_children(s1, children, 0);
        let rest = children_irqs(ctrl2, s.parents.push(cur), s.path.push(name), children, 0).1;
        assert(s.interrupts + here + rest =~= s.interrupts + (here + rest));
    }
}

proof fn lemma_irq_walk_children(s: InterruptsExtractorV, children: Seq<(Seq<char>, NodeV)>, i: int)
    ensures
        walk_children::<InterruptsExtractor>(s, children, i).controllers == children_irqs(
            s.controllers,
            s.parents,
            s.path,
            children,
            i,
        ).0,
        walk_children::<InterruptsExtractor>(s, children, i).interrupts == s.interrupts
            + children_irqs(s.controllers, s.parents, s.path, children, i).1,
    decreases children, children.len() - i,
{
    if 0 <= i < children.len() {
        lemma_irq_walk(s, children[i].0, children[i].1);
        lemma_interrupts_walk_restores(s, children[i].0, children[i].1);
        let s1 = walk_spec::<InterruptsExtractor>(s, children[i].0, children[i].1);
        lemma_irq_walk_children(s1, children, i + 1);
        let a = tree_irqs(s.controllers, s.parents, s.path, children[i].0, children[i].1).1;
        let b = children_irqs(s1.controllers, s.parents, s.path, children, i + 1).1;
        assert(s.interrupts + a + b =~= s.interrupts + (a + b));
    } else {
        assert(s.interrupts + Seq::<InterruptInfoV>::empty() =~= s.interrupts);
    }
}

/// A walk over `node` (named `name`) of an extractor made by `new` finds the
/// interrupts `tree_irqs` gives from no known controller; one made by
/// `from_root(node)` finds those it gives from all the tree's controllers.
pub proof fn lemma_interrupts_walk(name: Seq<char>, node: NodeV)
    ensures
        walk_spec::<InterruptsExtractor>(
            InterruptsExtractorV {
                parents: seq![ParentRefV::Root],
                path: Seq::empty(),
                controllers: Map::empty(),
                interrupts: Seq::empty(),
            },
            name,
            node,
        ).interrupts == tree_irqs(Map::empty(), seq![ParentRefV::Root], Seq::empty(), name, node).1,
        walk_spec::<InterruptsExtractor>(
            InterruptsExtractorV {
                parents: seq![ParentRefV::Root],
                path: Seq::empty(),
                controllers: collect_spec(Map::empty(), node, seq!['/']),
                interrupts: Seq::empty(),
            },
            name,
            node,
        ).interrupts == tree_irqs(
            collect_spec(Map::empty(), node, seq!['/']),
            seq![ParentRefV::Root],
            Seq::empty(),
            name,
            node,
        ).1,
{
    let s = InterruptsExtractorV {
        parents: seq![ParentRefV::Root],
        path: Seq::empty(),
        controllers: Map::empty(),
        interrupts: Seq::empty(),
    };
    lemma_irq_walk(s, name, node);
    let t = tree_irqs(Map::empty(), seq![ParentRefV::Root], Seq::empty(), name, node).1;
    assert(Seq::<InterruptInfoV>::empty() + t =~= t);
    let s2 = InterruptsExtractorV { controllers: collect_spec(Map::empty(), node, seq!['/']), ..s };
    lemma_irq_walk(s2, name, node);
    let t2 = tree_irqs(s2.controllers, seq![ParentRefV::Root], Seq::empty(), name, node).1;
    assert(Seq::<InterruptInfoV>::empty() + t2 =~= t2);
}

// ---------------------------------------------------------------------------
// Indexing the controllers first
// ---------------------------------------------------------------------------

/// Every parent lookup that `extended_spec` makes from cell `i` gives the
/// same answer in `a` as in `b`.
pub open spec fn ext_agree(
    a: Map<Seq<char>, (u32, Seq<char>)>,
    b: Map<Seq<char>, (u32, Seq<char>)>,
    cells: Seq<CellV>,
    i: int,
) -> bool
    decreases cells.len() - i,
{
    if i < 0 || i >= cells.len() {
        true
    } else {
        let parent = match cells[i] {
            CellV::Num(p) => ParentRefV::Phandle(p as u32),
            CellV::Ref(l, _) => ParentRefV::Name(l),
        };
        resolve(a, parent) == resolve(b, parent) && match resolve(a, parent) {
            None => true,
            Some((cs, _)) => if i + 1 + cs > cells.len() {
                true
            } else {
                ext_agree(a, b, cells, i + 1 + cs)
            },
        }
    }
}

/// Every lookup the extractor makes for `node` (parent in effect `cur`)
/// gives the same answer in `a` as in `b`.
pub open spec fn node_agree(
    a: Map<Seq<char>, (u32, Seq<char>)>,
    b: Map<Seq<char>, (u32, Seq<char>)>,
    cur: ParentRefV,
    node: NodeV,
) -> bool {
    (nums_prop(node, "interrupts"@) is Some ==> resolve(a, cur) == resolve(b, cur)) && match cells_prop(
        node,
        "interrupts-extended"@,
    ) {
        Some(cells) => ext_agree(a, b, cells, 0),
        None => true,
    }
}

/// Every lookup a walk of `node` makes gives the same answer when the walk
/// starts from the controllers `a` as when it starts from `b`.
pub open spec fn walk_agree(
    a: Map<Seq<char>, (u32, Seq<char>)>,
    b: Map<Seq<char>, (u32, Seq<char>)>,
    parents: Seq<ParentRefV>,
    path: Seq<Seq<char>>,
    name: Seq<char>,
    node: NodeV,
) -> bool
    decreases node, 0nat,
{
    let path2 = path.push(name);
    let fp = full_path_of(path2);
    let a2 = insert_all(a, controller_entries(node, fp));
    let b2 = insert_all(b, controller_entries(node, fp));
    let cur = effective_parent(parents, node);
    node_agree(a2, b2, cur, node) && match node {
        NodeV::Existing { children, .. } => children_agree(a2, b2, parents.push(cur), path2, children, 0),
        NodeV::Deleted { .. } => true,
    }
}

/// `walk_agree` for `children[i..]` in turn.
pub open spec fn children_agree(
    a: Map<Seq<char>, (u32, Seq<char>)>,
    b: Map<Seq<char>, (u32, Seq<char>)>,
    parents: Seq<ParentRefV>,
    path: Seq<Seq<char>>,
    children: Seq<(Seq<char>, NodeV)>,
    i: int,
) -> bool
    decreases children, children.len() - i,
{
    if 0 <= i < children.len() {
        walk_agree(a, b, parents, path, children[i].0, children[i].1) && children_agree(
            tree_irqs(a, parents, path, children[i].0, children[i].1).0,
            tree_irqs(b, parents, path, children[i].0, children[i].1).0,
            parents,
            path,
            children,
            i + 1,
        )
    } else {
        true
    }
}

proof fn lemma_ext_agree(
    a: Map<Seq<char>, (u32, Seq<char>)>,
    b: Map<Seq<char>, (u32, Seq<char>)>,
    cells: Seq<CellV>,
    i: int,
    path: Seq<char>,
    name: Seq<char>,
)
    requires
        ext_agree(a, b, cells, i),
    ensures
        extended_spec(a, cells, i, path, name) == extended_spec(b, cells, i, path, name),
    decreases cells.len() - i,
{
    if 0 <= i < cells.len() {
        let parent = match cells[i] {
            CellV::Num(p) => ParentRefV::Phandle(p as u32),
            CellV::Ref(l, _) => ParentRefV::Name(l),
        };
        if let Some((cs, _)) = resolve(a, parent) {
            if i + 1 + cs <= cells.len() {
                lemma_ext_agree(a, b, cells, i + 1 + cs, path, name);
            }
        }
    }
}

proof fn lemma_tree_irqs_agree(
    a: Map<Seq<char>, (u32, Seq<char>)>,
    b: Map<Seq<char>, (u32, Seq<char>)>,
    parents: Seq<ParentRefV>,
    path: Seq<Seq<char>>,
    name: Seq<char>,
    node: NodeV,
)
    requires
        walk_agree(a, b, parents, path, name, node),
    ensures
        tree_irqs(a, parents, path, name, node).1 == tree_irqs(b, parents, path, name, node).1,
    decreases node, 0nat,
{
    let path2 = path.push(name);
    let fp = full_path_of(path2);
    let a2 = insert_all(a, controller_entries(node, fp));
    let b2 = insert_all(b, controller_entries(node, fp));
    let cur = effective_parent(parents, node);
    if let Some(cells) = cells_prop(node, "interrupts-extended"@) {
        lemma_ext_agree(a2, b2, cells, 0, fp, name);
    }
    assert(plain_irqs(a2, cur, node, fp, name) == plain_irqs(b2, cur, node, fp, name));
    if let NodeV::Existing { children, .. } = node {
        lemma_children_irqs_agree(a2, b2, parents.push(cur), path2, children, 0);
    }
}

proof fn lemma_children_irqs_agree(
    a: Map<Seq<char>, (u32, Seq<char>)>,
    b: Map<Seq<char>, (u32, Seq<char>)>,
    parents: Seq<ParentRefV>,
    path: Seq<Seq<char>>,
    children: Seq<(Seq<char>, NodeV)>,
    i: int,
)
    requires
        children_agree(a, b, parents, path, children, i),
    ensures
        children_irqs(a, parents, path, children, i).1 == children_irqs(
            b,
            parents,
            path,
            children,
            i,
        ).1,
    decreases children, children.len() - i,
{
    if 0 <= i < children.len() {
        lemma_tree_irqs_agree(a, b, parents, path, children[i].0, children[i].1);
        lemma_children_irqs_agree(
            tree_irqs(a, parents, path, children[i].0, children[i].1).0,
            tree_irqs(b, parents, path, children[i].0, children[i].1).0,
            parents,
            path,
            children,
            i + 1,
        );
    }
}

/// Indexing the controllers first (`from_root`) changes the interrupts a
/// walk finds only where it changes the answer of some lookup the walk makes:
/// where every lookup answers the same with the tree's controllers indexed
/// beforehand as without (as when each controller comes before its users),
/// walks from `from_root(node)` and from `new()` find the same interrupts.
pub proof fn lemma_from_root_as_new(name: Seq<char>, node: NodeV)
    requires
        walk_agree(
            collect_spec(Map::empty(), node, seq!['/']),
            Map::empty(),
            seq![ParentRefV::Root],
            Seq::empty(),
            name,
            node,
        ),
    ensures
        walk_spec::<InterruptsExtractor>(
            InterruptsExtractorV {
                parents: seq![ParentRefV::Root],
                path: Seq::empty(),
                controllers: collect_spec(Map::empty(), node, seq!['/']),
                interrupts: Seq::empty(),
            },
            name,
            node,
        ).interrupts == walk_spec::<InterruptsExtractor>(
            InterruptsExtractorV {
                parents: seq![ParentRefV::Root],
                path: Seq::empty(),
                controllers: Map::empty(),
                interrupts: Seq::empty(),
            },
            name,
            node,
        ).interrupts,
{
    lemma_interrupts_walk(name, node);
    lemma_tree_irqs_agree(
        collect_spec(Map::empty(), node, seq!['/']),
        Map::empty(),
        seq![ParentRefV::Root],
        Seq::empty(),
        name,
        node,
    );
}

} // verus!
