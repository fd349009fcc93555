//! Writing a device tree back as DTS source text.

use crate::dts::tree::{
    cells_view, datas_view, prop_map_get_index, prop_map_len, prop_entries, Cell, CellV, Data,
    DataV, Node, NodeV, Property, PropertyV,
};
use crate::text::{
    concat, dec_digits, fmt_dec, fmt_hex_byte, fmt_hex_prefixed, hex_byte, hex_prefixed, join,
    join_strings, strings_view,
};
use crate::visitors::{walk_children, walk_spec, Visitor};
use vstd::prelude::*;

verus! {

// ---------------------------------------------------------------------------
// Specifications
// ---------------------------------------------------------------------------

/// `n` tab characters.
pub open spec fn tabs(n: nat) -> Seq<char> {
    Seq::new(n, |i: int| '\t')
}

/// Each label followed by `: `.
pub open spec fn labels_prefix(labels: Seq<Seq<char>>) -> Seq<char>
    decreases labels.len(),
{
    if labels.len() == 0 {
        Seq::empty()
    } else {
        labels_prefix(labels.drop_last()) + labels.last() + seq![':', ' ']
    }
}

/// The text of a cell: `0x` and hex digits, or `&` and the label.
pub open spec fn cell_text(c: CellV) -> Seq<char> {
    match c {
        CellV::Num(n) => hex_prefixed(n as nat),
        CellV::Ref(r, _) => seq!['&'] + r,
    }
}

/// The text of one piece of property data.
pub open spec fn data_text(d: DataV) -> Seq<char> {
    match d {
        DataV::Str(s) => seq!['"'] + s + seq!['"'],
        DataV::Cells(bits, cells) => (if bits != 32 {
            seq!['/', 'b', 'i', 't', 's', '/', ' '] + dec_digits(bits as nat) + seq![' ']
        } else {
            Seq::empty()
        }) + seq!['<'] + join(cells.map_values(|c: CellV| cell_text(c)), seq![' ']) + seq!['>'],
        DataV::Bytes(b) => seq!['['] + join(b.map_values(|x: u8| hex_byte(x)), seq![' ']) + seq![
            ']',
        ],
        DataV::Reference(r, _) => seq!['&'] + r,
    }
}

/// The line written for property `key` at indentation `indent` (nothing for
/// a deleted property).
pub open spec fn prop_line(indent: nat, key: Seq<char>, p: PropertyV) -> Seq<char> {
    match p {
        PropertyV::Deleted { .. } => Seq::empty(),
        PropertyV::Existing { val, labels, .. } => tabs(indent) + labels_prefix(labels) + key + (
        match val {
            Some(v) => if v.len() > 0 {
                seq![' ', '=', ' '] + join(v.map_values(|d: DataV| data_text(d)), seq![',', ' '])
                    + seq![';', '\n']
            } else {
                seq![';', '\n']
            },
            None => seq![';', '\n'],
        }),
    }
}

/// The lines written for a property list, in order.
pub open spec fn props_text(indent: nat, props: Seq<(Seq<char>, PropertyV)>) -> Seq<char>
    decreases props.len(),
{
    if props.len() == 0 {
        Seq::empty()
    } else {
        props_text(indent, props.drop_last()) + prop_line(indent, props.last().0, props.last().1)
    }
}

/// The state of a `DtsWriter` as seen by specifications.
pub struct DtsWriterV {
    pub out: Seq<char>,
    pub is_root: bool,
    pub indent: nat,
    pub first_child: Seq<bool>,
}

/// `s` with its last element set to `false` (unchanged when empty).
pub open spec fn clear_last(s: Seq<bool>) -> Seq<bool> {
    if s.len() > 0 {
        s.update(s.len() - 1, false)
    } else {
        s
    }
}

// ---------------------------------------------------------------------------
// Implementation
// ---------------------------------------------------------------------------

/// A visitor that writes the Device Tree back to a DTS format.
///
/// It traverses the tree and accumulates the nodes and properties in a
/// standard DTS text format; `output` returns the text written so far.
pub struct DtsWriter {
    out: String,
    is_root: bool,
    indent_level: usize,
    // Per open node: whether its next child is the first thing in its body
    // (no blank line needed before it).
    first_child_stack: Vec<bool>,
}

impl View for DtsWriter {
    type V = DtsWriterV;

    closed spec fn view(&self) -> DtsWriterV {
        DtsWriterV {
            out: self.out@,
            is_root: self.is_root,
            indent: self.indent_level as nat,
            first_child: self.first_child_stack@,
        }
    }
}

fn cell_string(c: &Cell) -> (r: String)
    ensures
        r@ == cell_text(c@),
{
    match c {
        Cell::Num(n) => fmt_hex_prefixed(*n as u128),
        Cell::Ref(r, _) => {
            proof {
                reveal_strlit("&");
            }
            concat("&", r.as_str())
        },
    }
}

proof fn lemma_map_push<A, B>(s: Seq<A>, x: A, f: spec_fn(A) -> B)
    ensures
        s.push(x).map_values(f) == s.map_values(f).push(f(x)),
{
    assert(s.push(x).map_values(f) =~= s.map_values(f).push(f(x)));
}

impl DtsWriter {
    /// Creates a new `DtsWriter`.
    ///
    /// `is_root`: whether to treat the starting node as the root of the file
    /// (printing the version header).
    pub fn new(is_root: bool) -> (r: Self)
        ensures
            r@ == (DtsWriterV {
                out: Seq::empty(),
                is_root,
                indent: 0,
                first_child: Seq::empty(),
            }),
    {
        let r = Self {
            out: String::new(),
            is_root,
            indent_level: 0,
            first_child_stack: Vec::new(),
        };
        proof {
            assert(r@.first_child =~= Seq::<bool>::empty());
        }
        r
    }

    /// The text written so far.
    pub fn output(&self) -> (r: String)
        ensures
            r@ == self@.out,
    {
        self.out.clone()
    }

    fn get_indent(&self) -> (r: String)
        ensures
            r@ == tabs(self.indent_level as nat),
    {
        let mut v: Vec<char> = Vec::new();
        let mut i: usize = 0;
        while i < self.indent_level
            invariant
                i <= self.indent_level,
                v@ == tabs(i as nat),
            decreases self.indent_level - i,
        {
            v.push('\t');
            proof {
                assert(v@ =~= tabs((i + 1) as nat));
            }
            i = i + 1;
        }
        crate::text::string_from_chars(v.as_slice())
    }

    fn fmt_data(data: &Data) -> (r: String)
        ensures
            r@ == data_text(data@),
    {
        proof {
            reveal_strlit("\"");
            reveal_strlit("/bits/ ");
            reveal_strlit(" ");
            reveal_strlit("<");
            reveal_strlit(">");
            reveal_strlit("[");
            reveal_strlit("]");
            reveal_strlit("&");
            assert("\""@ =~= seq!['"']);
            assert("&"@ =~= seq!['&']);
            assert(" "@ =~= seq![' ']);
            assert("<"@ =~= seq!['<']);
            assert(">"@ =~= seq!['>']);
            assert("["@ =~= seq!['[']);
            assert("]"@ =~= seq![']']);
            assert("/bits/ "@ =~= seq!['/', 'b', 'i', 't', 's', '/', ' ']);
        }
        match data {
            Data::String(s) => {
                let a = concat("\"", s.as_str());
                concat(a.as_str(), "\"")
            },
            Data::Cells(bits, cells) => {
                let mut content = String::new();
                if *bits != 32 {
                    content.append("/bits/ ");
                    let b = fmt_dec(*bits as u64);
                    content.append(b.as_str());
                    content.append(" ");
                }
                content.append("<");
                let mut strs: Vec<String> = Vec::new();
                let mut i: usize = 0;
                while i < cells.len()
                    invariant
                        i <= cells.len(),
                        strings_view(strs@) == cells_view(cells@).subrange(0, i as int).map_values(
                            |c: CellV| cell_text(c),
                        ),
                    decreases cells.len() - i,
                {
                    let ghost old_strs = strs@;
                    let t = cell_string(&cells[i]);
                    let ghost gt = t;
                    strs.push(t);
                    proof {
                        lemma_map_push(old_strs, gt, |s: String| s@);
                        assert(cells_view(cells@).subrange(0, i + 1) =~= cells_view(
                            cells@,
                        ).subrange(0, i as int).push(cells@[i as int]@));
                        lemma_map_push(
                            cells_view(cells@).subrange(0, i as int),
                            cells@[i as int]@,
                            |c: CellV| cell_text(c),
                        );
                    }
                    i = i + 1;
                }
                proof {
                    assert(cells_view(cells@).subrange(0, cells.len() as int) =~= cells_view(
                        cells@,
                    ));
                }
                let joined = join_strings(&strs, " ");
                content.append(joined.as_str());
                content.append(">");
                content
            },
            Data::ByteArray(bytes) => {
                let mut strs: Vec<String> = Vec::new();
                let mut i: usize = 0;
                while i < bytes.len()
                    invariant
                        i <= bytes.len(),
                        strings_view(strs@) == bytes@.subrange(0, i as int).map_values(
                            |x: u8| hex_byte(x),
                        ),
                    decreases bytes.len() - i,
                {
                    let ghost old_strs = strs@;
                    let t = fmt_hex_byte(bytes[i]);
                    let ghost gt = t;
                    strs.push(t);
                    proof {
                        lemma_map_push(old_strs, gt, |s: String| s@);
                        assert(bytes@.subrange(0, i + 1) =~= bytes@.subrange(0, i as int).push(
                            bytes@[i as int],
                        ));
                        lemma_map_push(
                            bytes@.subrange(0, i as int),
                            bytes@[i as int],
                            |x: u8| hex_byte(x),
                        );
                    }
                    i = i + 1;
                }
                proof {
                    assert(bytes@.subrange(0, bytes.len() as int) =~= bytes@);
                }
                let joined = join_strings(&strs, " ");
                let a = concat("[", joined.as_str());
                concat(a.as_str(), "]")
            },
            Data::Reference(r, _) => concat("&", r.as_str()),
        }
    }

    // The line for one property (nothing for a deleted one).
    fn fmt_prop(indent: &str, key: &str, prop: &Property) -> (r: String)
        ensures
            r@ == prop_line_with(indent@, key@, prop@),
    {
        proof {
            reveal_strlit(": ");
            reveal_strlit(" = ");
            reveal_strlit(", ");
            reveal_strlit(";\n");
            assert(": "@ =~= seq![':', ' ']);
            assert(" = "@ =~= seq![' ', '=', ' ']);
            assert(", "@ =~= seq![',', ' ']);
            assert(";\n"@ =~= seq![';', '\n']);
        }
        match prop {
            Property::Deleted { .. } => String::new(),
            Property::Existing { val, labels, .. } => {
                let mut prop_prefix = String::new();
                let mut i: usize = 0;
                while i < labels.len()
                    invariant
                        i <= labels.len(),
                        prop_prefix@ == labels_prefix(strings_view(labels@).subrange(0, i as int)),
                    decreases labels.len() - i,
                {
                    prop_prefix.append(labels[i].as_str());
                    prop_prefix.append(": ");
                    proof {
                        reveal_strlit(": ");
                        assert(": "@ =~= seq![':', ' ']);
                        assert(strings_view(labels@).subrange(0, i + 1).last() == labels@[i as int]@);
                        assert(strings_view(labels@).subrange(0, i + 1).drop_last()
                            =~= strings_view(labels@).subrange(0, i as int));
                        assert(prop_prefix@ =~= labels_prefix(
                            strings_view(labels@).subrange(0, i + 1),
                        ));
                    }
                    i = i + 1;
                }
                proof {
                    assert(strings_view(labels@).subrange(0, labels.len() as int)
                        =~= strings_view(labels@));
                }
                let head = concat(indent, prop_prefix.as_str());
                let head = concat(head.as_str(), key);
                match val {
                    Some(v) => {
                        if v.len() > 0 {
                            let mut strs: Vec<String> = Vec::new();
                            let mut j: usize = 0;
                            while j < v.len()
                                invariant
                                    j <= v.len(),
                                    strings_view(strs@) == datas_view(v@).subrange(
                                        0,
                                        j as int,
                                    ).map_values(|d: DataV| data_text(d)),
                                decreases v.len() - j,
                            {
                                let ghost old_strs = strs@;
                                let t = Self::fmt_data(&v[j]);
                                let ghost gt = t;
                                strs.push(t);
                                proof {
                                    lemma_map_push(old_strs, gt, |s: String| s@);
                                    assert(datas_view(v@).subrange(0, j + 1) =~= datas_view(
                                        v@,
                                    ).subrange(0, j as int).push(v@[j as int]@));
                                    lemma_map_push(
                                        datas_view(v@).subrange(0, j as int),
                                        v@[j as int]@,
                                        |d: DataV| data_text(d),
                                    );
                                }
                                j = j + 1;
                            }
                            proof {
                                assert(datas_view(v@).subrange(0, v.len() as int) =~= datas_view(
                                    v@,
                                ));
                            }
                            let joined = join_strings(&strs, ", ");
                            let line = concat(head.as_str(), " = ");
                            let line = concat(line.as_str(), joined.as_str());
                            let r = concat(line.as_str(), ";\n");
                            proof {
                                assert(r@ =~= prop_line_with(indent@, key@, prop@));
                            }
                            r
                        } else {
                            let r = concat(head.as_str(), ";\n");
                            proof {
                                assert(r@ =~= prop_line_with(indent@, key@, prop@));
                            }
                            r
                        }
                    },
                    None => {
                        let r = concat(head.as_str(), ";\n");
                        proof {
                            assert(r@ =~= prop_line_with(indent@, key@, prop@));
                        }
                        r
                    },
                }
            },
        }
    }
}

/// `prop_line` with the indentation given as text.
pub open spec fn prop_line_with(indent: Seq<char>, key: Seq<char>, p: PropertyV) -> Seq<char> {
    match p {
        PropertyV::Deleted { .. } => Seq::empty(),
        PropertyV::Existing { val, labels, .. } => indent + labels_prefix(labels) + key + (
        match val {
            Some(v) => if v.len() > 0 {
                seq![' ', '=', ' '] + join(v.map_values(|d: DataV| data_text(d)), seq![',', ' '])
                    + seq![';', '\n']
            } else {
                seq![';', '\n']
            },
            None => seq![';', '\n'],
        }),
    }
}

/// The version header written before the root.
pub open spec fn header() -> Seq<char> {
    seq!['/', 'd', 't', 's', '-', 'v', '1', '/', ';', '\n', '\n']
}

impl Visitor for DtsWriter {
    open spec fn ready(s: DtsWriterV) -> bool {
        true
    }

    proof fn lemma_ready_kept(s: DtsWriterV, name: Seq<char>, node: NodeV) {
    }

    open spec fn spec_enter(s: DtsWriterV, name: Seq<char>, node: NodeV) -> (DtsWriterV, bool) {
        let out1 = if !s.is_root && s.first_child.len() > 0 && !s.first_child.last() {
            s.out + seq!['\n']
        } else {
            s.out
        };
        let first1 = if !s.is_root {
            clear_last(s.first_child)
        } else {
            s.first_child
        };
        let out2 = if s.is_root {
            out1 + header()
        } else {
            out1
        };
        match node {
            NodeV::Deleted { .. } => (
                DtsWriterV { out: out2, is_root: false, indent: s.indent, first_child: first1 },
                false,
            ),
            NodeV::Existing { labels, props, .. } => {
                let display = if name.len() == 0 {
                    seq!['/']
                } else {
                    name
                };
                let out3 = out2 + tabs(s.indent) + labels_prefix(labels) + display + seq![
                    ' ',
                    '{',
                    '\n',
                ];
                let indent2 = if s.indent < usize::MAX {
                    s.indent + 1
                } else {
                    s.indent
                };
                let first2 = first1.push(true);
                (
                    DtsWriterV {
                        out: out3 + props_text(indent2, props),
                        is_root: false,
                        indent: indent2,
                        first_child: if props.len() > 0 {
                            clear_last(first2)
                        } else {
                            first2
                        },
                    },
                    true,
                )
            },
        }
    }

    open spec fn spec_exit(s: DtsWriterV, name: Seq<char>, node: NodeV) -> DtsWriterV {
        match node {
            NodeV::Existing { .. } => {
                let indent2: nat = if s.indent > 0 {
                    (s.indent - 1) as nat
                } else {
                    0
                };
                DtsWriterV {
                    out: s.out + tabs(indent2) + seq!['}', ';', '\n'],
                    indent: indent2,
                    first_child: crate::visitors::reg_extractor::pop_seq(s.first_child),
                    ..s
                }
            },
            NodeV::Deleted { .. } => s,
        }
    }

    fn enter_node(&mut self, name: &str, node: &Node) -> (r: bool) {
        let ghost s = self@;
        proof {
            reveal_strlit("\n");
            reveal_strlit("/dts-v1/;\n\n");
            reveal_strlit("/");
            reveal_strlit(": ");
            reveal_strlit(" {\n");
            assert("\n"@ =~= seq!['\n']);
            assert("/dts-v1/;\n\n"@ =~= header());
            assert("/"@ =~= seq!['/']);
            assert(": "@ =~= seq![':', ' ']);
            assert(" {\n"@ =~= seq![' ', '{', '\n']);
        }
        // Sibling spacing.
        if !self.is_root {
            if self.first_child_stack.len() > 0 {
                let last = self.first_child_stack.len() - 1;
                if !self.first_child_stack[last] {
                    self.out.append("\n");
                }
                self.first_child_stack.set(last, false);
            }
        }
        let indent = self.get_indent();
        // The version header before the root.
        if self.is_root {
            self.out.append("/dts-v1/;\n\n");
            self.is_root = false;
        }
        proof {
            assert(self.first_child_stack@ =~= if !s.is_root {
                clear_last(s.first_child)
            } else {
                s.first_child
            });
        }
        match node {
            Node::Deleted { .. } => {
                return false;
            },
            Node::Existing { proplist, labels, .. } => {
                // Header: `label1: label2: name {`
                let mut prefix = String::new();
                let mut i: usize = 0;
                while i < labels.len()
                    invariant
                        i <= labels.len(),
                        prefix@ == labels_prefix(strings_view(labels@).subrange(0, i as int)),
                    decreases labels.len() - i,
                {
                    prefix.append(labels[i].as_str());
                    prefix.append(": ");
                    proof {
                        reveal_strlit(": ");
                        assert(": "@ =~= seq![':', ' ']);
                        assert(strings_view(labels@).subrange(0, i + 1).last() == labels@[i as int]@);
                        assert(strings_view(labels@).subrange(0, i + 1).drop_last()
                            =~= strings_view(labels@).subrange(0, i as int));
                        assert(prefix@ =~= labels_prefix(strings_view(labels@).subrange(0, i + 1)));
                    }
                    i = i + 1;
                }
                proof {
                    assert(strings_view(labels@).subrange(0, labels.len() as int) =~= strings_view(
                        labels@,
                    ));
                }
                let display_name = if name.is_empty() {
                    "/"
                } else {
                    name
                };
                self.out.append(indent.as_str());
                self.out.append(prefix.as_str());
                self.out.append(display_name);
                self.out.append(" {\n");
                self.first_child_stack.push(true);
                if self.indent_level < usize::MAX {
                    self.indent_level = self.indent_level + 1;
                }
                let indent_prop = self.get_indent();
                let n = prop_map_len(proplist);
                let ghost props = prop_entries(*proplist);
                let ghost out_before = self.out@;
                let ghost fc = self.first_child_stack@;
                let ghost il = self.indent_level;
                let ghost ir = self.is_root;
                let mut k: usize = 0;
                while k < n
                    invariant
                        k <= n,
                        n == props.len(),
                        props == prop_entries(*proplist),
                        self.first_child_stack@ == fc,
                        self.indent_level == il,
                        self.is_root == ir,
                        indent_prop@ == tabs(self.indent_level as nat),
                        self.out@ == out_before + props_text(
                            self.indent_level as nat,
                            props.subrange(0, k as int),
                        ),
                    decreases n - k,
                {
                    let (key, prop) = prop_map_get_index(proplist, k);
                    let line = Self::fmt_prop(indent_prop.as_str(), key.as_str(), prop);
                    self.out.append(line.as_str());
                    proof {
                        assert(props.subrange(0, k + 1).drop_last() =~= props.subrange(0, k as int));
                        assert(props.subrange(0, k + 1).last() == props[k as int]);
                        assert(self.out@ =~= out_before + props_text(
                            self.indent_level as nat,
                            props.subrange(0, k + 1),
                        ));
                    }
                    k = k + 1;
                }
                proof {
                    assert(props.subrange(0, n as int) =~= props);
                }
                if n > 0 {
                    let last = self.first_child_stack.len() - 1;
                    self.first_child_stack.set(last, false);
                }
                proof {
                    let sp = Self::spec_enter(s, name@, node@).0;
                    assert(self@.first_child =~= sp.first_child);
                    assert(self@.indent == sp.indent);
                    assert(self@.is_root == sp.is_root);
                    assert(self@.out =~= sp.out);
                }
            },
        }
        true
    }

    fn exit_node(&mut self, _name: &str, node: &Node) {
        if let Node::Existing { .. } = node {
            let ghost s = self@;
            self.first_child_stack.pop();
            if self.indent_level > 0 {
                self.indent_level = self.indent_level - 1;
            }
            let indent = self.get_indent();
            self.out.append(indent.as_str());
            self.out.append("};\n");
            proof {
                reveal_strlit("};\n");
                assert("};\n"@ =~= seq!['}', ';', '\n']);
                if s.first_child.len() > 0 {
                    assert(self.first_child_stack@ =~= s.first_child.drop_last());
                }
            }
        }
    }
}

// ---------------------------------------------------------------------------
// What a walk keeps
// ---------------------------------------------------------------------------

/// The height of the tree under `n`: 0 for a deleted node, one more than its
/// highest child for an existing one.
pub open spec fn height(n: NodeV) -> nat
    decreases n, 0nat,
{
    match n {
        NodeV::Existing { children, .. } => 1 + children_height(children, 0),
        NodeV::Deleted { .. } => 0,
    }
}

/// The greatest height among `children[i..]`.
pub open spec fn children_height(children: Seq<(Seq<char>, NodeV)>, i: int) -> nat
    decreases children, children.len() - i,
{
    if 0 <= i < children.len() {
        let a = height(children[i].1);
        let b = children_height(children, i + 1);
        if a >= b {
            a
        } else {
            b
        }
    } else {
        0
    }
}

/// Walking a subtree leaves the indentation and the number of open scopes
/// as they were, where the indentation cannot overflow on the way down.
pub proof fn lemma_writer_walk_restores(s: DtsWriterV, name: Seq<char>, n: NodeV)
    requires
        s.indent + height(n) < usize::MAX,
    ensures
        walk_spec::<DtsWriter>(s, name, n).indent == s.indent,
        walk_spec::<DtsWriter>(s, name, n).first_child.len() == s.first_child.len(),
    decreases n, 0nat,
{
    let (s1, descend) = DtsWriter::spec_enter(s, name, n);
    if let NodeV::Existing { children, .. } = n {
        lemma_writer_children_restore(s1, children, 0);
    }
}

proof fn lemma_writer_children_restore(s: DtsWriterV, children: Seq<(Seq<char>, NodeV)>, i: int)
    requires
        s.indent + children_height(children, i) < usize::MAX,
    ensures
        walk_children::<DtsWriter>(s, children, i).indent == s.indent,
        walk_children::<DtsWriter>(s, children, i).first_child.len() == s.first_child.len(),
    decreases children, children.len() - i,
{
    if 0 <= i < children.len() {
        lemma_writer_walk_restores(s, children[i].0, children[i].1);
        let s1 = walk_spec::<DtsWriter>(s, children[i].0, children[i].1);
        lemma_writer_children_restore(s1, children, i + 1);
    }
}

// ---------------------------------------------------------------------------
// What a whole walk writes
// ---------------------------------------------------------------------------

/// A blank line before a node, unless it is the first thing in its parent's
/// body (or has no parent).
pub open spec fn blank_before(first_child: Seq<bool>) -> Seq<char> {
    if first_child.len() > 0 && !first_child.last() {
        seq!['\n']
    } else {
        Seq::empty()
    }
}

/// The name a node is written with: `/` for an empty name.
pub open spec fn display_name(name: Seq<char>) -> Seq<char> {
    if name.len() == 0 {
        seq!['/']
    } else {
        name
    }
}

/// The text of `node` (named `name`) at indentation `d`: nothing for a
/// deleted node; else its header line, its properties, its children (a
/// blank line before each but a first one that no property precedes) and
/// its closing line.
pub open spec fn node_text(d: nat, name: Seq<char>, node: NodeV) -> Seq<char>
    decreases node, 0nat,
{
    match node {
        NodeV::Existing { labels, props, children, .. } => tabs(d) + labels_prefix(labels)
            + display_name(name) + seq![' ', '{', '\n'] + props_text(d + 1, props) + children_text(
            d + 1,
            children,
            0,
            props.len() == 0,
        ) + tabs(d) + seq!['}', ';', '\n'],
        NodeV::Deleted { .. } => Seq::empty(),
    }
}

/// The text of `children[i..]` at indentation `d`, where `first` says that
/// nothing was written in the parent's body yet.
pub open spec fn children_text(d: nat, children: Seq<(Seq<char>, NodeV)>, i: int, first: bool) -> Seq<
    char,
>
    decreases children, children.len() - i,
{
    if 0 <= i < children.len() {
        (if first {
            Seq::empty()
        } else {
            seq!['\n']
        }) + node_text(d, children[i].0, children[i].1) + children_text(d, children, i + 1, false)
    } else {
        Seq::empty()
    }
}

proof fn lemma_writer_walk_text(s: DtsWriterV, name: Seq<char>, n: NodeV)
    requires
        !s.is_root,
        s.indent + height(n) < usize::MAX,
    ensures
        walk_spec::<DtsWriter>(s, name, n).out == s.out + blank_before(s.first_child) + node_text(
            s.indent,
            name,
            n,
        ),
        walk_spec::<DtsWriter>(s, name, n).first_child == clear_last(s.first_child),
        walk_spec::<DtsWriter>(s, name, n).indent == s.indent,
        !walk_spec::<DtsWriter>(s, name, n).is_root,
    decreases n, 0nat,
{
    let d = s.indent;
    let first1 = clear_last(s.first_child);
    let out1 = s.out + blank_before(s.first_child);
    if let NodeV::Existing { labels, props, children, .. } = n {
        let s1 = DtsWriter::spec_enter(s, name, n).0;
        let first2 = first1.push(true);
        assert(s1.first_child.len() == first2.len());
        assert(s1.first_child.last() == (props.len() == 0));
        assert(s1.first_child.drop_last() =~= first1);
        lemma_writer_children_text(s1, children, 0);
        let s2 = walk_children::<DtsWriter>(s1, children, 0);
        let ct = children_text(d + 1, children, 0, props.len() == 0);
        assert(s2.first_child.drop_last() =~= first1);
        let head = tabs(d) + labels_prefix(labels) + display_name(name) + seq![' ', '{', '\n'];
        assert(s1.out == out1 + head + props_text(d + 1, props));
        assert(s2.out + tabs(d) + seq!['}', ';', '\n'] =~= out1 + (head + props_text(d + 1, props)
            + ct + tabs(d) + seq!['}', ';', '\n']));
    } else {
        assert(out1 + Seq::<char>::empty() =~= out1);
    }
}

proof fn lemma_writer_children_text(s: DtsWriterV, children: Seq<(Seq<char>, NodeV)>, i: int)
    requires
        !s.is_root,
        s.first_child.len() > 0,
        s.indent + children_height(children, i) < usize::MAX,
    ensures
        walk_children::<DtsWriter>(s, children, i).out == s.out + children_text(
            s.indent,
            children,
            i,
            s.first_child.last(),
        ),
        walk_children::<DtsWriter>(s, children, i).first_child == if 0 <= i < children.len() {
            clear_last(s.first_child)
        } else {
            s.first_child
        },
        walk_children::<DtsWriter>(s, children, i).indent == s.indent,
        !walk_children::<DtsWriter>(s, children, i).is_root,
    decreases children, children.len() - i,
{
    if 0 <= i < children.len() {
        lemma_writer_walk_text(s, children[i].0, children[i].1);
        let s1 = walk_spec::<DtsWriter>(s, children[i].0, children[i].1);
        assert(s1.first_child.last() == false);
        lemma_writer_children_text(s1, children, i + 1);
        assert(clear_last(clear_last(s.first_child)) =~= clear_last(s.first_child));
        let blank = if s.first_child.last() {
            Seq::<char>::empty()
        } else {
            seq!['\n']
        };
        assert(blank_before(s.first_child) == blank);
        let a = node_text(s.indent, children[i].0, children[i].1);
        let b = children_text(s.indent, children, i + 1, false);
        assert(s.out + blank + a + b =~= s.out + (blank + a + b));
    } else {
        assert(s.out + Seq::<char>::empty() =~= s.out);
    }
}

/// A walk of a new writer over `n` (named `name`) writes the tree's text
/// (`node_text`), after the version header when the writer starts at the
/// root of a file; this holds where the indentation cannot overflow.
pub proof fn lemma_writer_walk(is_root: bool, name: Seq<char>, n: NodeV)
    requires
        height(n) < usize::MAX,
    ensures
        walk_spec::<DtsWriter>(
            DtsWriterV { out: Seq::empty(), is_root, indent: 0, first_child: Seq::empty() },
            name,
            n,
        ).out == (if is_root {
            header()
        } else {
            Seq::empty()
        }) + node_text(0, name, n),
{
    let s = DtsWriterV { out: Seq::empty(), is_root, indent: 0, first_child: Seq::empty() };
    let h = if is_root {
        header()
    } else {
        Seq::<char>::empty()
    };
    let s0 = DtsWriterV { out: h, is_root: false, indent: 0, first_child: Seq::empty() };
    lemma_writer_walk_text(s0, name, n);
    assert(blank_before(Seq::<bool>::empty()) =~= Seq::<char>::empty());
    assert(h + Seq::<char>::empty() + node_text(0, name, n) =~= h + node_text(0, name, n));
    assert(Seq::<char>::empty() + h =~= h);
    assert(DtsWriter::spec_enter(s, name, n) == DtsWriter::spec_enter(s0, name, n)) by {
        assert(Seq::<char>::empty() + header() =~= header());
    }
    if let NodeV::Existing { children, .. } = n {
        assert(walk_spec::<DtsWriter>(s, name, n) == walk_spec::<DtsWriter>(s0, name, n));
    }
}

// ---------------------------------------------------------------------------
// Property lines
// ---------------------------------------------------------------------------

proof fn lemma_map_push_text(v: Seq<DataV>, d: DataV)
    ensures
        v.push(d).map_values(|x: DataV| data_text(x)) == v.map_values(|x: DataV| data_text(x)).push(
            data_text(d),
        ),
{
    assert(v.push(d).map_values(|x: DataV| data_text(x)) =~= v.map_values(|x: DataV| data_text(x)).push(
        data_text(d),
    ));
}

/// A property line writes every piece of the value, in order, separated by
/// `, `: a value of one piece is written `key = piece;`, and adding a piece
/// at the end of a value adds `, ` and its text before the final `;`.
pub proof fn lemma_prop_line_pieces(
    indent: Seq<char>,
    key: Seq<char>,
    name: Seq<char>,
    labels: Seq<Seq<char>>,
    offset: usize,
    v: Seq<DataV>,
    d: DataV,
)
    ensures
        prop_line_with(
            indent,
            key,
            PropertyV::Existing { name, val: Some(seq![d]), labels, offset },
        ) == indent + labels_prefix(labels) + key + seq![' ', '=', ' '] + data_text(d) + seq![';', '\n'],
        v.len() > 0 ==> ({
            let before = prop_line_with(
                indent,
                key,
                PropertyV::Existing { name, val: Some(v), labels, offset },
            );
            prop_line_with(
                indent,
                key,
                PropertyV::Existing { name, val: Some(v.push(d)), labels, offset },
            ) == before.subrange(0, before.len() - 2) + seq![',', ' '] + data_text(d) + seq![';', '\n']
        }),
        forall|i: nat, p: PropertyV| #[trigger] prop_line(i, key, p) == prop_line_with(tabs(i), key, p),
{
    let one = seq![d];
    assert(one.map_values(|x: DataV| data_text(x)) =~= seq![data_text(d)]);
    let head = indent + labels_prefix(labels) + key;
    if v.len() > 0 {
        lemma_map_push_text(v, d);
        let parts = v.map_values(|x: DataV| data_text(x));
        let j = join(parts, seq![',', ' ']);
        assert(parts.push(data_text(d)).drop_last() =~= parts);
        assert(join(parts.push(data_text(d)), seq![',', ' ']) == j + seq![',', ' '] + data_text(d));
        let before = head + (seq![' ', '=', ' '] + j + seq![';', '\n']);
        assert(before.subrange(0, before.len() - 2) =~= head + seq![' ', '=', ' '] + j);
        assert(head + (seq![' ', '=', ' '] + (j + seq![',', ' '] + data_text(d)) + seq![';', '\n'])
            =~= before.subrange(0, before.len() - 2) + seq![',', ' '] + data_text(d) + seq![';', '\n']);
    }
    assert(head + (seq![' ', '=', ' '] + data_text(d) + seq![';', '\n']) =~= head + seq![' ', '=', ' ']
        + data_text(d) + seq![';', '\n']);
}

} // verus!
