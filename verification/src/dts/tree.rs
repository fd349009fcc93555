//! The device tree model.
//!
//! Every executable type has a view (`@`) into a ghost type of the same shape
//! in which strings are character sequences and vectors are sequences.
//! Property lists are `IndexMap`s, whose contents are named by `prop_entries`;
//! a node's children are kept as a vector of `(name, node)` pairs in
//! insertion order, the order in which the walker visits them.

use crate::text::strings_view;
use indexmap::IndexMap;
use vstd::prelude::*;

verus! {

#[verifier::external_type_specification]
#[verifier::external_body]
#[verifier::reject_recursive_types(K)]
#[verifier::reject_recursive_types(V)]
#[verifier::reject_recursive_types(S)]
pub struct ExIndexMap<K, V, S>(IndexMap<K, V, S>);

// ---------------------------------------------------------------------------
// The ghost model
// ---------------------------------------------------------------------------

/// A cell as seen by specifications.
pub enum CellV {
    Num(u64),
    Ref(Seq<char>, Option<u32>),
}

/// Property data as seen by specifications.
pub enum DataV {
    Str(Seq<char>),
    Cells(usize, Seq<CellV>),
    Bytes(Seq<u8>),
    Reference(Seq<char>, Option<u32>),
}

/// A property as seen by specifications.
pub enum PropertyV {
    Existing { name: Seq<char>, val: Option<Seq<DataV>>, labels: Seq<Seq<char>>, offset: usize },
    Deleted { name: Seq<char>, offset: usize },
}

/// A node name as seen by specifications.
pub enum NodeNameV {
    Ref(Seq<char>),
    Full(Seq<char>),
}

/// A node as seen by specifications: properties and children are ordered
/// lists of `(key, value)` pairs.
pub enum NodeV {
    Existing {
        name: NodeNameV,
        props: Seq<(Seq<char>, PropertyV)>,
        children: Seq<(Seq<char>, NodeV)>,
        labels: Seq<Seq<char>>,
        offset: usize,
    },
    Deleted { name: NodeNameV, offset: usize },
}

/// The first index whose key is `k`, if any.
pub open spec fn find_key<A>(entries: Seq<(Seq<char>, A)>, k: Seq<char>) -> Option<int>
    decreases entries.len(),
{
    if entries.len() == 0 {
        None
    } else {
        match find_key(entries.drop_last(), k) {
            Some(i) => Some(i),
            None => if entries.last().0 == k {
                Some(entries.len() - 1)
            } else {
                None
            },
        }
    }
}

/// The value stored under `k` (the first entry with that key).
pub open spec fn lookup<A>(entries: Seq<(Seq<char>, A)>, k: Seq<char>) -> Option<A> {
    match find_key(entries, k) {
        Some(i) => Some(entries[i].1),
        None => None,
    }
}

/// Ordered-map insertion: an existing key keeps its place and gets the new
/// value; a new key goes last.
pub open spec fn entries_insert<A>(entries: Seq<(Seq<char>, A)>, k: Seq<char>, v: A) -> Seq<
    (Seq<char>, A),
> {
    match find_key(entries, k) {
        Some(i) => entries.update(i, (k, v)),
        None => entries.push((k, v)),
    }
}

/// No key occurs twice.
pub open spec fn keys_unique<A>(entries: Seq<(Seq<char>, A)>) -> bool {
    forall|i: int, j: int|
        0 <= i < entries.len() && 0 <= j < entries.len() && i != j ==> entries[i].0 != entries[j].0
}

pub proof fn lemma_find_key<A>(entries: Seq<(Seq<char>, A)>, k: Seq<char>)
    ensures
        match find_key(entries, k) {
            Some(i) => 0 <= i < entries.len() && entries[i].0 == k && forall|j: int|
                0 <= j < i ==> entries[j].0 != k,
            None => forall|j: int| 0 <= j < entries.len() ==> entries[j].0 != k,
        },
    decreases entries.len(),
{
    if entries.len() > 0 {
        let d = entries.drop_last();
        lemma_find_key(d, k);
        assert(forall|j: int| 0 <= j < d.len() ==> d[j] == entries[j]);
    }
}

impl PropertyV {
    /// The name of the property.
    pub open spec fn name(self) -> Seq<char> {
        match self {
            PropertyV::Existing { name, .. } => name,
            PropertyV::Deleted { name, .. } => name,
        }
    }
}

impl NodeV {
    /// The name of the node.
    pub open spec fn name(self) -> NodeNameV {
        match self {
            NodeV::Existing { name, .. } => name,
            NodeV::Deleted { name, .. } => name,
        }
    }

    /// The property list of an existing node, empty for a deleted one.
    pub open spec fn props(self) -> Seq<(Seq<char>, PropertyV)> {
        match self {
            NodeV::Existing { props, .. } => props,
            NodeV::Deleted { .. } => Seq::empty(),
        }
    }

    /// The children of an existing node, empty for a deleted one.
    pub open spec fn children(self) -> Seq<(Seq<char>, NodeV)> {
        match self {
            NodeV::Existing { children, .. } => children,
            NodeV::Deleted { .. } => Seq::empty(),
        }
    }

    /// The labels of an existing node, empty for a deleted one.
    pub open spec fn labels(self) -> Seq<Seq<char>> {
        match self {
            NodeV::Existing { labels, .. } => labels,
            NodeV::Deleted { .. } => Seq::empty(),
        }
    }

    /// The data of property `key` when it exists and has a value.
    pub open spec fn prop_data(self, key: Seq<char>) -> Option<Seq<DataV>> {
        match lookup(self.props(), key) {
            Some(PropertyV::Existing { val: Some(data), .. }) => Some(data),
            _ => None,
        }
    }
}

// ---------------------------------------------------------------------------
// The executable model
// ---------------------------------------------------------------------------

/// One cell of a `< ... >` list: a number or a reference to a label.
#[derive(Debug, Clone, PartialEq, Eq)]
pub enum Cell {
    Num(u64),
    Ref(String, Option<u32>),
}

/// One comma-separated piece of a property value.
#[derive(Debug, Clone, PartialEq, Eq)]
pub enum Data {
    String(String),
    Cells(usize, Vec<Cell>),
    ByteArray(Vec<u8>),
    Reference(String, Option<u32>),
}

/// A property, or the deletion of one.
#[derive(Debug, Clone, PartialEq, Eq)]
pub enum Property {
    Existing { name: String, val: Option<Vec<Data>>, labels: Vec<String>, offset: usize },
    Deleted { name: String, offset: usize },
}

/// A node name: a full name, or a reference to a labelled node.
#[derive(Debug, Clone, PartialEq, Eq)]
pub enum NodeName {
    Ref(String),
    Full(String),
}

/// A node, or the deletion of one.
#[derive(Debug, PartialEq, Eq)]
pub enum Node {
    Existing {
        name: NodeName,
        proplist: IndexMap<String, Property>,
        children: Vec<(String, Node)>,
        labels: Vec<String>,
        offset: usize,
    },
    Deleted { name: NodeName, offset: usize },
}

/// A `/memreserve/` entry.
#[derive(Debug, Clone, PartialEq, Eq)]
pub struct ReserveInfo {
    pub address: u64,
    pub size: u64,
    pub labels: Vec<String>,
}

/// A parsed device tree: its memory reservations and root node.
#[derive(Debug, PartialEq, Eq)]
pub struct DTInfo {
    pub reserve_info: Vec<ReserveInfo>,
    pub root: Node,
    pub boot_cpuid: u32,
}

/// A `/memreserve/` entry as seen by specifications.
pub struct ReserveV {
    pub address: u64,
    pub size: u64,
    pub labels: Seq<Seq<char>>,
}

/// A parsed device tree as seen by specifications.
pub struct DTInfoV {
    pub reserve_info: Seq<ReserveV>,
    pub root: NodeV,
    pub boot_cpuid: u32,
}

impl View for ReserveInfo {
    type V = ReserveV;

    open spec fn view(&self) -> ReserveV {
        ReserveV { address: self.address, size: self.size, labels: strings_view(self.labels@) }
    }
}

/// The views of a list of memory reservations.
pub open spec fn reserves_view(v: Seq<ReserveInfo>) -> Seq<ReserveV> {
    v.map_values(|r: ReserveInfo| r@)
}

/// The views of a list of nodes.
pub open spec fn nodes_view(v: Seq<Node>) -> Seq<NodeV> {
    v.map_values(|n: Node| node_view(n))
}

impl View for DTInfo {
    type V = DTInfoV;

    open spec fn view(&self) -> DTInfoV {
        DTInfoV {
            reserve_info: reserves_view(self.reserve_info@),
            root: node_view(self.root),
            boot_cpuid: self.boot_cpuid,
        }
    }
}

/// The views of a list of cells.
pub open spec fn cells_view(v: Seq<Cell>) -> Seq<CellV> {
    v.map_values(|c: Cell| c@)
}

/// The views of a list of data.
pub open spec fn datas_view(v: Seq<Data>) -> Seq<DataV> {
    v.map_values(|d: Data| d@)
}

impl View for Cell {
    type V = CellV;

    open spec fn view(&self) -> CellV {
        match self {
            Cell::Num(n) => CellV::Num(*n),
            Cell::Ref(s, p) => CellV::Ref(s@, *p),
        }
    }
}

impl View for Data {
    type V = DataV;

    open spec fn view(&self) -> DataV {
        match self {
            Data::String(s) => DataV::Str(s@),
            Data::Cells(b, c) => DataV::Cells(*b, cells_view(c@)),
            Data::ByteArray(b) => DataV::Bytes(b@),
            Data::Reference(s, p) => DataV::Reference(s@, *p),
        }
    }
}

impl View for Property {
    type V = PropertyV;

    open spec fn view(&self) -> PropertyV {
        match self {
            Property::Existing { name, val, labels, offset } => PropertyV::Existing {
                name: name@,
                val: match val {
                    Some(v) => Some(datas_view(v@)),
                    None => None,
                },
                labels: strings_view(labels@),
                offset: *offset,
            },
            Property::Deleted { name, offset } => PropertyV::Deleted { name: name@, offset: *offset },
        }
    }
}

impl View for NodeName {
    type V = NodeNameV;

    open spec fn view(&self) -> NodeNameV {
        match self {
            NodeName::Ref(s) => NodeNameV::Ref(s@),
            NodeName::Full(s) => NodeNameV::Full(s@),
        }
    }
}

/// What a property list holds: its `(key, property)` entries in order.
pub uninterp spec fn prop_entries(m: IndexMap<String, Property>) -> Seq<(Seq<char>, PropertyV)>;

/// The views of a list of children.
pub open spec fn children_view(ch: Seq<(String, Node)>) -> Seq<(Seq<char>, NodeV)>
    decreases ch, 0nat,
{
    if ch.len() == 0 {
        Seq::empty()
    } else {
        children_view(ch.drop_last()).push((ch.last().0@, node_view(ch.last().1)))
    }
}

/// The view of a node.
pub open spec fn node_view(n: Node) -> NodeV
    decreases n, 1nat,
{
    match n {
        Node::Existing { name, proplist, children, labels, offset } => NodeV::Existing {
            name: name@,
            props: prop_entries(proplist),
            children: children_view(children@),
            labels: strings_view(labels@),
            offset,
        },
        Node::Deleted { name, offset } => NodeV::Deleted { name: name@, offset },
    }
}

pub proof fn lemma_children_view(ch: Seq<(String, Node)>)
    ensures
        children_view(ch).len() == ch.len(),
        forall|i: int|
            0 <= i < ch.len() ==> #[trigger] children_view(ch)[i] == (ch[i].0@, node_view(ch[i].1)),
    decreases ch.len(),
{
    if ch.len() > 0 {
        let d = ch.drop_last();
        lemma_children_view(d);
        assert forall|i: int| 0 <= i < ch.len() implies #[trigger] children_view(ch)[i] == (
            ch[i].0@,
            node_view(ch[i].1),
        ) by {
            if i < d.len() {
                assert(d[i] == ch[i]);
            }
        }
    }
}

impl View for Node {
    type V = NodeV;

    open spec fn view(&self) -> NodeV {
        node_view(*self)
    }
}

// ---------------------------------------------------------------------------
// Accessors
// ---------------------------------------------------------------------------

impl NodeNameV {
    /// The text of the name.
    pub open spec fn text(self) -> Seq<char> {
        match self {
            NodeNameV::Ref(s) => s,
            NodeNameV::Full(s) => s,
        }
    }
}

impl Property {
    /// The name of the property.
    pub fn name(&self) -> (r: &str)
        ensures
            r@ == self@.name(),
    {
        match self {
            Property::Existing { name, .. } => name.as_str(),
            Property::Deleted { name, .. } => name.as_str(),
        }
    }
}

impl Node {
    /// The name of the node.
    pub fn name(&self) -> (r: &NodeName)
        ensures
            r@ == self@.name(),
    {
        match self {
            Node::Existing { name, .. } => name,
            Node::Deleted { name, .. } => name,
        }
    }
}

impl NodeName {
    /// The text of the name.
    pub fn as_str(&self) -> (r: &str)
        ensures
            r@ == self@.text(),
    {
        match self {
            NodeName::Ref(s) => s.as_str(),
            NodeName::Full(s) => s.as_str(),
        }
    }
}

/// The first cell of the first data of property `key`, as a `u32`, when it
/// is a number.
pub open spec fn u32_prop(n: NodeV, key: Seq<char>) -> Option<u32> {
    match n.prop_data(key) {
        Some(data) => if data.len() > 0 {
            match data[0] {
                DataV::Cells(_, cells) => if cells.len() > 0 {
                    match cells[0] {
                        CellV::Num(v) => Some(v as u32),
                        _ => None,
                    }
                } else {
                    None
                },
                _ => None,
            }
        } else {
            None
        },
        None => None,
    }
}

/// The data of property `key` of `node`, when the node exists and the
/// property exists with a value.
pub fn node_prop_data<'a>(node: &'a Node, key: &str) -> (r: Option<&'a Vec<Data>>)
    ensures
        match r {
            Some(d) => node@.prop_data(key@) == Some(datas_view(d@)),
            None => node@.prop_data(key@) is None,
        },
{
    if let Node::Existing { proplist, .. } = node {
        if let Some(Property::Existing { val: Some(data), .. }) = prop_map_get(proplist, key) {
            return Some(data);
        }
    }
    None
}

/// The first cell of the first data of property `key`, as a `u32`.
pub fn node_u32_prop(node: &Node, key: &str) -> (r: Option<u32>)
    ensures
        r == u32_prop(node@, key@),
{
    if let Some(data) = node_prop_data(node, key) {
        if data.len() > 0 {
            if let Data::Cells(_, cells) = &data[0] {
                if cells.len() > 0 {
                    if let Cell::Num(val) = &cells[0] {
                        return Some(*val as u32);
                    }
                }
            }
        }
    }
    None
}

/// Whether property `key` is present (existing or deleted).
pub fn node_has_prop(node: &Node, key: &str) -> (r: bool)
    ensures
        r == (node@ is Existing && lookup(node@.props(), key@) is Some),
{
    if let Node::Existing { proplist, .. } = node {
        prop_map_get(proplist, key).is_some()
    } else {
        false
    }
}

/// The numbers among `cells`, in order.
pub open spec fn nums_of(cells: Seq<CellV>) -> Seq<u64>
    decreases cells.len(),
{
    if cells.len() == 0 {
        Seq::empty()
    } else {
        nums_of(cells.drop_last()) + match cells.last() {
            CellV::Num(v) => seq![v],
            CellV::Ref(..) => Seq::empty(),
        }
    }
}

/// The cells of all `< ... >` pieces of `data`, in order.
pub open spec fn all_cells(data: Seq<DataV>) -> Seq<CellV>
    decreases data.len(),
{
    if data.len() == 0 {
        Seq::empty()
    } else {
        all_cells(data.drop_last()) + match data.last() {
            DataV::Cells(_, c) => c,
            _ => Seq::empty(),
        }
    }
}

/// The numbers in all `< ... >` pieces of `data`, in order.
pub open spec fn all_nums(data: Seq<DataV>) -> Seq<u64> {
    nums_of(all_cells(data))
}

proof fn lemma_nums_of_append(a: Seq<CellV>, b: Seq<CellV>)
    ensures
        nums_of(a + b) == nums_of(a) + nums_of(b),
    decreases b.len(),
{
    if b.len() == 0 {
        assert(a + b =~= a);
        assert(nums_of(a) + nums_of(b) =~= nums_of(a));
    } else {
        lemma_nums_of_append(a, b.drop_last());
        assert((a + b).drop_last() =~= a + b.drop_last());
        assert(nums_of(a) + nums_of(b) =~= nums_of(a) + nums_of(b.drop_last()) + match b.last() {
            CellV::Num(v) => seq![v],
            CellV::Ref(..) => Seq::<u64>::empty(),
        });
    }
}

/// All cells of the `< ... >` pieces of `data`, in order.
pub fn flatten_cells(data: &[Data]) -> (r: Vec<Cell>)
    ensures
        cells_view(r@) == all_cells(datas_view(data@)),
{
    let mut r: Vec<Cell> = Vec::new();
    let mut i: usize = 0;
    while i < data.len()
        invariant
            i <= data.len(),
            cells_view(r@) == all_cells(datas_view(data@.subrange(0, i as int))),
        decreases data.len() - i,
    {
        proof {
            assert(datas_view(data@.subrange(0, i + 1)).drop_last() =~= datas_view(
                data@.subrange(0, i as int),
            ));
        }
        if let Data::Cells(_, cells) = &data[i] {
            let mut j: usize = 0;
            let ghost before = cells_view(r@);
            while j < cells.len()
                invariant
                    j <= cells.len(),
                    cells_view(r@) == before + cells_view(cells@.subrange(0, j as int)),
                decreases cells.len() - j,
            {
                let ghost old_r = r@;
                let c = cells[j].clone_cell();
                r.push(c);
                proof {
                    let target = before + cells_view(cells@.subrange(0, j + 1));
                    assert(cells_view(old_r).len() == old_r.len());
                    assert forall|k: int| 0 <= k < r@.len() implies cells_view(r@)[k] == target[k] by {
                        if k < old_r.len() {
                            assert(r@[k] == old_r[k]);
                            assert(cells_view(old_r)[k] == old_r[k]@);
                        } else {
                            assert(r@[k] == c);
                            assert(cells@.subrange(0, j + 1)[j as int] == cells@[j as int]);
                        }
                    }
                    assert(cells_view(r@) =~= target);
                }
                j = j + 1;
            }
            proof {
                assert(cells@.subrange(0, cells.len() as int) =~= cells@);
            }
        }
        i = i + 1;
    }
    proof {
        assert(data@.subrange(0, data.len() as int) =~= data@);
    }
    r
}

/// All numbers of the `< ... >` pieces of `data`, in order.
pub fn flatten_nums(data: &[Data]) -> (r: Vec<u64>)
    ensures
        r@ == all_nums(datas_view(data@)),
{
    let cells = flatten_cells(data);
    let mut r: Vec<u64> = Vec::new();
    let mut i: usize = 0;
    while i < cells.len()
        invariant
            i <= cells.len(),
            r@ == nums_of(cells_view(cells@.subrange(0, i as int))),
        decreases cells.len() - i,
    {
        proof {
            assert(cells_view(cells@.subrange(0, i + 1)).drop_last() =~= cells_view(
                cells@.subrange(0, i as int),
            ));
        }
        if let Cell::Num(v) = &cells[i] {
            r.push(*v);
        }
        proof {
            assert(r@ =~= nums_of(cells_view(cells@.subrange(0, i + 1))));
        }
        i = i + 1;
    }
    proof {
        assert(cells@.subrange(0, cells.len() as int) =~= cells@);
    }
    r
}

impl Cell {
    /// A copy of the cell.
    pub fn clone_cell(&self) -> (r: Cell)
        ensures
            r@ == self@,
    {
        match self {
            Cell::Num(n) => Cell::Num(*n),
            Cell::Ref(s, p) => Cell::Ref(s.clone(), *p),
        }
    }
}

impl NodeName {
    /// A copy of the name.
    pub fn copy(&self) -> (r: NodeName)
        ensures
            r@ == self@,
    {
        match self {
            NodeName::Ref(s) => NodeName::Ref(s.clone()),
            NodeName::Full(s) => NodeName::Full(s.clone()),
        }
    }
}

/// A copy of a list of strings.
pub fn clone_strings(v: &Vec<String>) -> (r: Vec<String>)
    ensures
        strings_view(r@) == strings_view(v@),
{
    let mut r: Vec<String> = Vec::new();
    let mut i: usize = 0;
    while i < v.len()
        invariant
            i <= v.len(),
            strings_view(r@) == strings_view(v@).subrange(0, i as int),
        decreases v.len() - i,
    {
        let ghost old_r = r@;
        let c = v[i].clone();
        r.push(c);
        proof {
            assert(strings_view(old_r).len() == old_r.len());
            assert forall|k: int| 0 <= k < r@.len() implies #[trigger] strings_view(r@)[k]
                == strings_view(v@).subrange(0, i + 1)[k] by {
                if k < old_r.len() {
                    assert(r@[k] == old_r[k]);
                    assert(strings_view(old_r)[k] == old_r[k]@);
                }
            }
            assert(strings_view(r@) =~= strings_view(v@).subrange(0, i + 1));
        }
        i = i + 1;
    }
    proof {
        assert(strings_view(v@).subrange(0, v.len() as int) =~= strings_view(v@));
    }
    r
}

/// `n` without its children.
pub open spec fn strip_children(n: NodeV) -> NodeV {
    match n {
        NodeV::Existing { name, props, labels, offset, .. } => NodeV::Existing {
            name,
            props,
            children: Seq::empty(),
            labels,
            offset,
        },
        NodeV::Deleted { .. } => n,
    }
}

/// `n` with `children` as its children (a deleted node is unchanged).
pub open spec fn with_children(n: NodeV, children: Seq<(Seq<char>, NodeV)>) -> NodeV {
    match n {
        NodeV::Existing { name, props, labels, offset, .. } => NodeV::Existing {
            name,
            props,
            children,
            labels,
            offset,
        },
        NodeV::Deleted { .. } => n,
    }
}

impl Node {
    /// A copy of this node without its children.
    pub fn clone_without_children(&self) -> (r: Node)
        ensures
            r@ == strip_children(self@),
    {
        match self {
            Node::Existing { name, proplist, labels, offset, .. } => {
                let r = Node::Existing {
                    name: name.copy(),
                    proplist: prop_map_clone(proplist),
                    children: Vec::new(),
                    labels: clone_strings(labels),
                    offset: *offset,
                };
                proof {
                    assert(children_view(Seq::<(String, Node)>::empty()) =~= Seq::<
                        (Seq<char>, NodeV),
                    >::empty());
                }
                r
            },
            Node::Deleted { name, offset } => Node::Deleted { name: name.copy(), offset: *offset },
        }
    }

    /// A copy of this node and everything under it.
    pub fn deep_clone(&self) -> (r: Node)
        ensures
            r@ == self@,
        decreases self,
    {
        match self {
            Node::Existing { name, proplist, children, labels, offset } => {
                let mut ch: Vec<(String, Node)> = Vec::new();
                let mut i: usize = 0;
                proof {
                    lemma_children_view(children@);
                }
                while i < children.len()
                    invariant
                        i <= children.len(),
                        *self is Existing,
                        *children == self->children,
                        children_view(ch@) == children_view(children@).subrange(0, i as int),
                        children_view(children@).len() == children@.len(),
                        forall|j: int|
                            0 <= j < children@.len() ==> #[trigger] children_view(children@)[j] == (
                                children@[j].0@,
                                children@[j].1@,
                            ),
                    decreases children.len() - i,
                {
                    proof {
                        assert(decreases_to!(*self => *children));
                        assert(decreases_to!(*children => children@));
                        assert(decreases_to!(children@ => children@[i as int]));
                        assert(decreases_to!(children@[i as int] => children@[i as int].1));
                    }
                    let c = children[i].1.deep_clone();
                    let k = children[i].0.clone();
                    let ghost old_ch = ch@;
                    ch.push((k, c));
                    proof {
                        assert(ch@.drop_last() =~= old_ch);
                        assert(children_view(ch@) =~= children_view(old_ch).push(
                            (children@[i as int].0@, children@[i as int].1@),
                        ));
                        assert(children_view(children@).subrange(0, i + 1) =~= children_view(
                            children@,
                        ).subrange(0, i as int).push(children_view(children@)[i as int]));
                    }
                    i = i + 1;
                }
                proof {
                    assert(children_view(children@).subrange(0, children.len() as int)
                        =~= children_view(children@));
                }
                Node::Existing {
                    name: name.copy(),
                    proplist: prop_map_clone(proplist),
                    children: ch,
                    labels: clone_strings(labels),
                    offset: *offset,
                }
            },
            Node::Deleted { name, offset } => Node::Deleted { name: name.copy(), offset: *offset },
        }
    }
}

/// Ordered-map insertion into a list of children (see `entries_insert`).
pub fn children_insert(children: &mut Vec<(String, Node)>, k: String, v: Node)
    ensures
        children_view(final(children)@) == entries_insert(children_view(old(children)@), k@, v@),
{
    proof {
        lemma_children_view(children@);
        lemma_find_key(children_view(children@), k@);
    }
    let ghost cv = children_view(children@);
    let mut i: usize = 0;
    while i < children.len()
        invariant
            i <= children.len(),
            children@ == old(children)@,
            cv == children_view(children@),
            cv.len() == children@.len(),
            forall|j: int|
                0 <= j < children@.len() ==> #[trigger] cv[j] == (children@[j].0@, children@[j].1@),
            forall|j: int| 0 <= j < i ==> cv[j].0 != k@,
        decreases children.len() - i,
    {
        if crate::text::str_eq(children[i].0.as_str(), k.as_str()) {
            let ghost kv = k@;
            let ghost vv = v@;
            children.set(i, (k, v));
            proof {
                assert(cv[i as int].0 == kv);
                assert(find_key(cv, kv) == Some(i as int)) by {
                    lemma_find_key(cv, kv);
                    match find_key(cv, kv) {
                        Some(x) => {
                            if x < i {
                            } else if x > i {
                            }
                        },
                        None => {},
                    }
                }
                lemma_children_view(children@);
                assert(children_view(children@) =~= cv.update(i as int, (kv, vv)));
            }
            return ;
        }
        i = i + 1;
    }
    let ghost kv = k@;
    let ghost vv = v@;
    children.push((k, v));
    proof {
        assert(children@.drop_last() =~= old(children)@);
        assert(find_key(cv, kv) is None) by {
            lemma_find_key(cv, kv);
            match find_key(cv, kv) {
                Some(x) => {
                    assert(cv[x].0 != kv);
                },
                None => {},
            }
        }
    }
}

/// Whether a list of children has an entry with key `k`.
pub fn children_contains_key(children: &Vec<(String, Node)>, k: &str) -> (r: bool)
    ensures
        r == (find_key(children_view(children@), k@) is Some),
{
    proof {
        lemma_children_view(children@);
        lemma_find_key(children_view(children@), k@);
    }
    let ghost cv = children_view(children@);
    let mut i: usize = 0;
    while i < children.len()
        invariant
            i <= children.len(),
            cv == children_view(children@),
            cv.len() == children@.len(),
            forall|j: int|
                0 <= j < children@.len() ==> #[trigger] cv[j] == (children@[j].0@, children@[j].1@),
            forall|j: int| 0 <= j < i ==> cv[j].0 != k@,
        decreases children.len() - i,
    {
        if crate::text::str_eq(children[i].0.as_str(), k) {
            proof {
                assert(cv[i as int].0 == k@);
                lemma_find_key(cv, k@);
            }
            return true;
        }
        i = i + 1;
    }
    proof {
        match find_key(cv, k@) {
            Some(x) => {
                assert(cv[x].0 != k@);
            },
            None => {},
        }
    }
    false
}

/// A copy of a list of children and everything under them.
pub fn clone_children(children: &Vec<(String, Node)>) -> (r: Vec<(String, Node)>)
    ensures
        children_view(r@) == children_view(children@),
{
    proof {
        lemma_children_view(children@);
    }
    let mut ch: Vec<(String, Node)> = Vec::new();
    let mut i: usize = 0;
    while i < children.len()
        invariant
            i <= children.len(),
            children_view(ch@) == children_view(children@).subrange(0, i as int),
            children_view(children@).len() == children@.len(),
            forall|j: int|
                0 <= j < children@.len() ==> #[trigger] children_view(children@)[j] == (
                    children@[j].0@,
                    children@[j].1@,
                ),
        decreases children.len() - i,
    {
        let c = children[i].1.deep_clone();
        let k = children[i].0.clone();
        let ghost old_ch = ch@;
        ch.push((k, c));
        proof {
            assert(ch@.drop_last() =~= old_ch);
            assert(children_view(ch@) =~= children_view(old_ch).push(
                (children@[i as int].0@, children@[i as int].1@),
            ));
            assert(children_view(children@).subrange(0, i + 1) =~= children_view(
                children@,
            ).subrange(0, i as int).push(children_view(children@)[i as int]));
        }
        i = i + 1;
    }
    proof {
        assert(children_view(children@).subrange(0, children.len() as int) =~= children_view(
            children@,
        ));
    }
    ch
}

/// Appends copies of the strings of `v` to `out`.
pub fn append_strings(out: &mut Vec<String>, v: &Vec<String>)
    ensures
        strings_view(final(out)@) == strings_view(old(out)@) + strings_view(v@),
{
    let ghost base = strings_view(out@);
    let mut i: usize = 0;
    while i < v.len()
        invariant
            i <= v.len(),
            strings_view(out@) == base + strings_view(v@).subrange(0, i as int),
        decreases v.len() - i,
    {
        let ghost old_out = out@;
        let c = v[i].clone();
        out.push(c);
        proof {
            assert(strings_view(old_out).len() == old_out.len());
            let target = base + strings_view(v@).subrange(0, i + 1);
            assert forall|k: int| 0 <= k < out@.len() implies #[trigger] strings_view(out@)[k]
                == target[k] by {
                if k < old_out.len() {
                    assert(out@[k] == old_out[k]);
                    assert(strings_view(old_out)[k] == old_out[k]@);
                }
            }
            assert(strings_view(out@) =~= target);
        }
        i = i + 1;
    }
    proof {
        assert(strings_view(v@).subrange(0, v.len() as int) =~= strings_view(v@));
    }
}

// ---------------------------------------------------------------------------
// Finding nodes
// ---------------------------------------------------------------------------

/// The completed non-empty `/`-separated pieces of `p`, and the piece in progress.
pub open spec fn path_pieces(p: Seq<char>) -> (Seq<Seq<char>>, Seq<char>)
    decreases p.len(),
{
    if p.len() == 0 {
        (Seq::empty(), Seq::empty())
    } else {
        let (done, cur) = path_pieces(p.drop_last());
        if p.last() == '/' {
            (
                if cur.len() > 0 {
                    done.push(cur)
                } else {
                    done
                },
                Seq::empty(),
            )
        } else {
            (done, cur.push(p.last()))
        }
    }
}

/// The non-empty `/`-separated components of a path.
pub open spec fn path_components(p: Seq<char>) -> Seq<Seq<char>> {
    let (done, cur) = path_pieces(p);
    if cur.len() > 0 {
        done.push(cur)
    } else {
        done
    }
}

/// The node reached from `n` by following the child names `comps`.
pub open spec fn node_at(n: NodeV, comps: Seq<Seq<char>>) -> Option<NodeV>
    decreases comps.len(),
{
    if comps.len() == 0 {
        Some(n)
    } else {
        match lookup(n.children(), comps[0]) {
            Some(c) => node_at(c, comps.skip(1)),
            None => None,
        }
    }
}

/// The first node, in depth-first pre-order from `n`, that carries `label`.
pub open spec fn find_labelled(n: NodeV, label: Seq<char>) -> Option<NodeV>
    decreases n, 0nat,
{
    match n {
        NodeV::Existing { labels, children, .. } => if labels.contains(label) {
            Some(n)
        } else {
            find_labelled_children(children, label, 0)
        },
        NodeV::Deleted { .. } => None,
    }
}

/// `find_labelled` over `children[i..]`: the first hit.
pub open spec fn find_labelled_children(
    children: Seq<(Seq<char>, NodeV)>,
    label: Seq<char>,
    i: int,
) -> Option<NodeV>
    decreases children, children.len() - i,
{
    if 0 <= i < children.len() {
        match find_labelled(children[i].1, label) {
            Some(x) => Some(x),
            None => find_labelled_children(children, label, i + 1),
        }
    } else {
        None
    }
}

/// The child stored under `k`, if any.
pub fn children_get<'a>(children: &'a Vec<(String, Node)>, k: &str) -> (r: Option<&'a Node>)
    ensures
        match r {
            Some(n) => lookup(children_view(children@), k@) == Some(n@),
            None => lookup(children_view(children@), k@) is None,
        },
{
    proof {
        lemma_children_view(children@);
        lemma_find_key(children_view(children@), k@);
    }
    let ghost cv = children_view(children@);
    let mut i: usize = 0;
    while i < children.len()
        invariant
            i <= children.len(),
            cv == children_view(children@),
            cv.len() == children@.len(),
            forall|j: int|
                0 <= j < children@.len() ==> #[trigger] cv[j] == (children@[j].0@, children@[j].1@),
            forall|j: int| 0 <= j < i ==> cv[j].0 != k@,
        decreases children.len() - i,
    {
        if crate::text::str_eq(children[i].0.as_str(), k) {
            proof {
                assert(cv[i as int].0 == k@);
                lemma_find_key(cv, k@);
                match find_key(cv, k@) {
                    Some(x) => {
                        if x < i {
                        } else if x > i {
                        }
                    },
                    None => {},
                }
            }
            return Some(&children[i].1);
        }
        i = i + 1;
    }
    proof {
        match find_key(cv, k@) {
            Some(x) => {
                assert(cv[x].0 != k@);
            },
            None => {},
        }
    }
    None
}

fn strings_contain(v: &Vec<String>, s: &str) -> (r: bool)
    ensures
        r == strings_view(v@).contains(s@),
{
    let mut i: usize = 0;
    while i < v.len()
        invariant
            i <= v.len(),
            forall|j: int| 0 <= j < i ==> strings_view(v@)[j] != s@,
        decreases v.len() - i,
    {
        if crate::text::str_eq(v[i].as_str(), s) {
            proof {
                assert(strings_view(v@)[i as int] == s@);
            }
            return true;
        }
        i = i + 1;
    }
    false
}

/// The first node, in depth-first pre-order from `node`, that carries `label`.
pub fn find_by_label<'a>(node: &'a Node, label: &str) -> (r: Option<&'a Node>)
    ensures
        match r {
            Some(n) => find_labelled(node@, label@) == Some(n@),
            None => find_labelled(node@, label@) is None,
        },
    decreases node,
{
    match node {
        Node::Existing { labels, children, .. } => {
            if strings_contain(labels, label) {
                return Some(node);
            }
            let ghost cv = children_view(children@);
            proof {
                lemma_children_view(children@);
            }
            let mut i: usize = 0;
            while i < children.len()
                invariant
                    i <= children.len(),
                    *node is Existing,
                    *children == node->children,
                    *labels == node->labels,
                    !strings_view(labels@).contains(label@),
                    cv == children_view(children@),
                    cv.len() == children@.len(),
                    forall|j: int|
                        0 <= j < children@.len() ==> #[trigger] cv[j] == (
                            children@[j].0@,
                            children@[j].1@,
                        ),
                    find_labelled(node@, label@) == find_labelled_children(cv, label@, i as int),
                decreases children.len() - i,
            {
                proof {
                    assert(decreases_to!(*node => *children));
                    assert(decreases_to!(*children => children@));
                    assert(decreases_to!(children@ => children@[i as int]));
                    assert(decreases_to!(children@[i as int] => children@[i as int].1));
                }
                let found = find_by_label(&children[i].1, label);
                if found.is_some() {
                    return found;
                }
                i = i + 1;
            }
            None
        },
        Node::Deleted { .. } => None,
    }
}

impl DTInfo {
    /// The node at an absolute path such as `/soc/serial@1000` (`/` is the root).
    pub fn get_node_by_path(&self, path: &str) -> (r: Option<&Node>)
        ensures
            match r {
                Some(n) => node_at(self.root@, path_components(path@)) == Some(n@),
                None => node_at(self.root@, path_components(path@)) is None,
            },
    {
        let comps = split_path(path);
        let ghost cv = path_components(path@);
        let mut cur: &Node = &self.root;
        let mut i: usize = 0;
        proof {
            assert(cv.skip(0) =~= cv);
        }
        while i < comps.len()
            invariant
                i <= comps.len(),
                strings_view(comps@) == cv,
                cv == path_components(path@),
                node_at(self.root@, cv) == node_at(cur@, cv.skip(i as int)),
            decreases comps.len() - i,
        {
            proof {
                assert(cv.skip(i as int)[0] == comps@[i as int]@);
                assert(cv.skip(i as int).skip(1) =~= cv.skip(i + 1));
            }
            let next = match cur {
                Node::Existing { children, .. } => children_get(children, comps[i].as_str()),
                Node::Deleted { .. } => None,
            };
            match next {
                Some(n) => {
                    cur = n;
                },
                None => {
                    proof {
                        assert(cv.skip(i as int).len() > 0);
                        assert(find_key(cur@.children(), comps@[i as int]@) is None);
                        assert(lookup(cur@.children(), cv.skip(i as int)[0]) is None);
                        assert(node_at(cur@, cv.skip(i as int)) is None);
                        assert(node_at(self.root@, cv) is None);
                    }
                    return None;
                },
            }
            i = i + 1;
        }
        proof {
            assert(cv.skip(comps.len() as int).len() == 0);
        }
        Some(cur)
    }

    /// The first node, in depth-first pre-order, that carries `label`.
    pub fn get_node_by_label(&self, label: &str) -> (r: Option<&Node>)
        ensures
            match r {
                Some(n) => find_labelled(self.root@, label@) == Some(n@),
                None => find_labelled(self.root@, label@) is None,
            },
    {
        find_by_label(&self.root, label)
    }
}

/// The non-empty `/`-separated components of `path`.
pub fn split_path(path: &str) -> (r: Vec<String>)
    ensures
        strings_view(r@) == path_components(path@),
{
    let chars = crate::text::str_chars(path);
    let mut done: Vec<String> = Vec::new();
    let mut cur: Vec<char> = Vec::new();
    let mut i: usize = 0;
    while i < chars.len()
        invariant
            i <= chars.len(),
            chars@ == path@,
            path_pieces(chars@.subrange(0, i as int)) == (strings_view(done@), cur@),
        decreases chars.len() - i,
    {
        proof {
            assert(chars@.subrange(0, i + 1).drop_last() =~= chars@.subrange(0, i as int));
            assert(chars@.subrange(0, i + 1).last() == chars@[i as int]);
        }
        if chars[i] == '/' {
            if cur.len() > 0 {
                let piece = crate::text::string_from_chars(cur.as_slice());
                let ghost old_done = done@;
                done.push(piece);
                proof {
                    assert(strings_view(done@) =~= strings_view(old_done).push(cur@));
                }
            }
            cur = Vec::new();
        } else {
            cur.push(chars[i]);
        }
        i = i + 1;
    }
    proof {
        assert(chars@.subrange(0, chars.len() as int) =~= chars@);
    }
    if cur.len() > 0 {
        let piece = crate::text::string_from_chars(cur.as_slice());
        let ghost old_done = done@;
        done.push(piece);
        proof {
            assert(strings_view(done@) =~= strings_view(old_done).push(cur@));
        }
    }
    done
}

// ---------------------------------------------------------------------------
// Property lists (`IndexMap<String, Property>`)
// ---------------------------------------------------------------------------

/// An empty property list (`IndexMap::new`).
#[verifier::external_body]
pub(crate) fn prop_map_new() -> (m: IndexMap<String, Property>)
    ensures
        prop_entries(m) == Seq::<(Seq<char>, PropertyV)>::empty(),
{
    IndexMap::new()
}

/// `IndexMap::insert`: an existing key keeps its place and takes the new
/// value, a new key is appended last.
#[verifier::external_body]
pub(crate) fn prop_map_insert(m: &mut IndexMap<String, Property>, k: String, v: Property)
    ensures
        prop_entries(*final(m)) == entries_insert(prop_entries(*old(m)), k@, v@),
{
    m.insert(k, v);
}

/// `IndexMap::get`: the value stored under `k`.
#[verifier::external_body]
pub(crate) fn prop_map_get<'a>(m: &'a IndexMap<String, Property>, k: &str) -> (r: Option<&'a Property>)
    ensures
        match r {
            Some(p) => lookup(prop_entries(*m), k@) == Some(p@),
            None => lookup(prop_entries(*m), k@) is None,
        },
{
    m.get(k)
}

/// `IndexMap::len`: the number of entries.
#[verifier::external_body]
pub(crate) fn prop_map_len(m: &IndexMap<String, Property>) -> (r: usize)
    ensures
        r == prop_entries(*m).len(),
{
    m.len()
}

/// `IndexMap::get_index`: the entry at position `i` in insertion order.
#[verifier::external_body]
pub(crate) fn prop_map_get_index<'a>(m: &'a IndexMap<String, Property>, i: usize) -> (r: (
    &'a String,
    &'a Property,
))
    requires
        i < prop_entries(*m).len(),
    ensures
        (r.0@, r.1@) == prop_entries(*m)[i as int],
{
    m.get_index(i).unwrap()
}

/// `IndexMap::clone`: a list with the same entries.
#[verifier::external_body]
pub(crate) fn prop_map_clone(m: &IndexMap<String, Property>) -> (r: IndexMap<String, Property>)
    ensures
        prop_entries(r) == prop_entries(*m),
{
    m.clone()
}

} // verus!
