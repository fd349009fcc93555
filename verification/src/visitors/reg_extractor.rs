//! Extraction of `reg` address ranges.

use crate::dts::tree::{
    all_nums, flatten_nums, node_prop_data, node_u32_prop, u32_prop, Node, NodeV,
};
use crate::text::{concat, fmt_hex_prefixed, hex_prefixed, strings_view};
use crate::visitors::{
    full_path, full_path_of, lemma_walk_appends, lemma_walk_keeps, walk_children, walk_spec,
    Visitor,
};
use vstd::prelude::*;

verus! {

/// Information about an extracted register region.
#[derive(Debug)]
pub struct RegInfo {
    /// The full path of the node.
    pub alias: String,
    /// The start address in hex format.
    pub start_hex: String,
    /// The size in hex format.
    pub size_hex: String,
}

/// A register region as seen by specifications.
pub struct RegInfoV {
    pub alias: Seq<char>,
    pub start_hex: Seq<char>,
    pub size_hex: Seq<char>,
}

impl View for RegInfo {
    type V = RegInfoV;

    open spec fn view(&self) -> RegInfoV {
        RegInfoV { alias: self.alias@, start_hex: self.start_hex@, size_hex: self.size_hex@ }
    }
}

/// The views of a list of register regions.
pub open spec fn regs_view(v: Seq<RegInfo>) -> Seq<RegInfoV> {
    v.map_values(|r: RegInfo| r@)
}

/// The value of a big-endian list of 32-bit parts, each shifted in from the
/// right into a 128-bit accumulator (`(acc << 32) | part`).
pub open spec fn parts_value(parts: Seq<u64>) -> u128
    decreases parts.len(),
{
    if parts.len() == 0 {
        0
    } else {
        ((parts_value(parts.drop_last()) << 32u128) | (parts.last() as u128)) as u128
    }
}

/// The text of a list of parts: empty for no parts, else `0x` and the hex
/// digits of their value.
pub open spec fn parts_hex(parts: Seq<u64>) -> Seq<char> {
    if parts.len() == 0 {
        Seq::empty()
    } else {
        hex_prefixed(parts_value(parts) as nat)
    }
}

/// The regions described by `cells` read in chunks of `size` cells, the
/// first `addr` of each being the start address and the rest the size; a
/// trailing partial chunk is ignored.
pub open spec fn reg_chunks(cells: Seq<u64>, addr: nat, size: nat, path: Seq<char>) -> Seq<RegInfoV>
    decreases cells.len(),
{
    if size == 0 || cells.len() < size {
        Seq::empty()
    } else {
        seq![
            RegInfoV {
                alias: path,
                start_hex: parts_hex(cells.subrange(0, addr as int)),
                size_hex: parts_hex(cells.subrange(addr as int, size as int)),
            },
        ] + reg_chunks(cells.skip(size as int), addr, size, path)
    }
}

/// The state of a `RegExtractor` as seen by specifications.
pub struct RegExtractorV {
    pub addr_cells: Seq<u32>,
    pub size_cells: Seq<u32>,
    pub path: Seq<Seq<char>>,
    pub regs: Seq<RegInfoV>,
}

/// A visitor that extracts register information (`reg` property) from nodes.
///
/// It tracks `#address-cells` and `#size-cells` to correctly parse the `reg` property.
pub struct RegExtractor {
    address_cells_stack: Vec<u32>,
    size_cells_stack: Vec<u32>,
    path_stack: Vec<String>,
    /// The collected register information.
    pub regs: Vec<RegInfo>,
}

impl View for RegExtractor {
    type V = RegExtractorV;

    closed spec fn view(&self) -> RegExtractorV {
        RegExtractorV {
            addr_cells: self.address_cells_stack@,
            size_cells: self.size_cells_stack@,
            path: strings_view(self.path_stack@),
            regs: regs_view(self.regs@),
        }
    }
}

/// The top of a cells stack, 1 when it is empty.
pub open spec fn top_or_one(s: Seq<u32>) -> u32 {
    if s.len() > 0 {
        s.last()
    } else {
        1
    }
}

/// `s` without its top element (unchanged when empty).
pub open spec fn pop_seq<A>(s: Seq<A>) -> Seq<A> {
    if s.len() > 0 {
        s.drop_last()
    } else {
        s
    }
}

/// The regions that `node`'s `reg` property describes, read with the
/// parent's cell counts.
pub open spec fn node_regs(node: NodeV, addr: u32, size: u32, path: Seq<char>) -> Seq<RegInfoV> {
    match node.prop_data("reg"@) {
        Some(data) => reg_chunks(all_nums(data), addr as nat, (addr + size) as nat, path),
        None => Seq::empty(),
    }
}

fn fmt_parts(cells: &Vec<u64>, lo: usize, hi: usize) -> (r: String)
    requires
        lo <= hi <= cells.len(),
    ensures
        r@ == parts_hex(cells@.subrange(lo as int, hi as int)),
{
    if lo == hi {
        return String::new();
    }
    let mut val: u128 = 0;
    let mut i = lo;
    while i < hi
        invariant
            lo <= i <= hi <= cells.len(),
            val == parts_value(cells@.subrange(lo as int, i as int)),
        decreases hi - i,
    {
        proof {
            assert(cells@.subrange(lo as int, i + 1).drop_last() =~= cells@.subrange(
                lo as int,
                i as int,
            ));
        }
        val = (val << 32u128) | (cells[i] as u128);
        i = i + 1;
    }
    fmt_hex_prefixed(val)
}

impl RegExtractor {
    /// The registers found so far.
    pub fn regs(&self) -> (r: &Vec<RegInfo>)
        ensures
            regs_view(r@) == self@.regs,
    {
        &self.regs
    }

    /// Creates a new `RegExtractor`.
    pub fn new() -> (r: Self)
        ensures
            r@ == (RegExtractorV {
                addr_cells: seq![1u32],
                size_cells: seq![1u32],
                path: Seq::empty(),
                regs: Seq::empty(),
            }),
    {
        let r = Self {
            address_cells_stack: vec![1],
            size_cells_stack: vec![1],
            path_stack: Vec::new(),
            regs: Vec::new(),
        };
        proof {
            assert(r@.path =~= Seq::<Seq<char>>::empty());
            assert(r@.regs =~= Seq::<RegInfoV>::empty());
            assert(r@.addr_cells =~= seq![1u32]);
            assert(r@.size_cells =~= seq![1u32]);
        }
        r
    }

    /// Generates a CSV-like output string of the extracted registers.
    ///
    /// Format: full_path,start_hex,size_hex
    pub fn output(&self) -> (r: String)
        ensures
            r@ == regs_text(self@.regs),
    {
        let mut output = String::new();
        let mut i: usize = 0;
        while i < self.regs.len()
            invariant
                i <= self.regs.len(),
                output@ == regs_text(regs_view(self.regs@).subrange(0, i as int)),
            decreases self.regs.len() - i,
        {
            let reg = &self.regs[i];
            let line = concat(reg.alias.as_str(), ",");
            let line = concat(line.as_str(), reg.start_hex.as_str());
            let line = concat(line.as_str(), ",");
            let line = if !reg.size_hex.as_str().is_empty() {
                concat(line.as_str(), reg.size_hex.as_str())
            } else {
                line
            };
            let line = concat(line.as_str(), "\n");
            output.append(line.as_str());
            proof {
                reveal_strlit(",");
                reveal_strlit("\n");
                let v = regs_view(self.regs@);
                assert(v[i as int] == reg@);
                assert(v.subrange(0, i + 1).drop_last() =~= v.subrange(0, i as int));
                if reg.size_hex@.len() == 0 {
                    assert(reg.size_hex@ =~= Seq::<char>::empty());
                }
                assert(output@ =~= regs_text(v.subrange(0, i + 1)));
            }
            i = i + 1;
        }
        proof {
            assert(regs_view(self.regs@).subrange(0, self.regs.len() as int) =~= regs_view(
                self.regs@,
            ));
        }
        output
    }
}

/// The output text: one line `alias,start,size` per region.
pub open spec fn regs_text(regs: Seq<RegInfoV>) -> Seq<char>
    decreases regs.len(),
{
    if regs.len() == 0 {
        Seq::empty()
    } else {
        let r = regs.last();
        regs_text(regs.drop_last()) + r.alias + seq![','] + r.start_hex + seq![','] + r.size_hex
            + seq!['\n']
    }
}

impl Visitor for RegExtractor {
    open spec fn ready(s: RegExtractorV) -> bool {
        true
    }

    proof fn lemma_ready_kept(s: RegExtractorV, name: Seq<char>, node: NodeV) {
    }

    open spec fn spec_enter(s: RegExtractorV, name: Seq<char>, node: NodeV) -> (RegExtractorV, bool) {
        let path = s.path.push(name);
        let pa = top_or_one(s.addr_cells);
        let ps = top_or_one(s.size_cells);
        let ca = match u32_prop(node, "#address-cells"@) {
            Some(v) => v,
            None => pa,
        };
        let cs = match u32_prop(node, "#size-cells"@) {
            Some(v) => v,
            None => ps,
        };
        (
            RegExtractorV {
                addr_cells: s.addr_cells.push(ca),
                size_cells: s.size_cells.push(cs),
                path,
                regs: s.regs + node_regs(node, pa, ps, full_path_of(path)),
            },
            true,
        )
    }

    open spec fn spec_exit(s: RegExtractorV, name: Seq<char>, node: NodeV) -> RegExtractorV {
        RegExtractorV {
            addr_cells: pop_seq(s.addr_cells),
            size_cells: pop_seq(s.size_cells),
            path: pop_seq(s.path),
            regs: s.regs,
        }
    }

    fn enter_node(&mut self, name: &str, node: &Node) -> (r: bool) {
        let ghost s = self@;
        self.path_stack.push(String::from_str(name));
        proof {
            assert(strings_view(self.path_stack@) =~= s.path.push(name@));
        }
        // The parent's cell counts apply to this node's `reg`.
        let parent_addr_cells = match self.address_cells_stack.last() {
            Some(v) => *v,
            None => 1,
        };
        let parent_size_cells = match self.size_cells_stack.last() {
            Some(v) => *v,
            None => 1,
        };
        // This node's own counts apply to its children.
        let child_addr_cells = match node_u32_prop(node, "#address-cells") {
            Some(v) => v,
            None => parent_addr_cells,
        };
        let child_size_cells = match node_u32_prop(node, "#size-cells") {
            Some(v) => v,
            None => parent_size_cells,
        };
        let ghost path = strings_view(self.path_stack@);
        let ghost regs0 = regs_view(self.regs@);
        let ghost ps0 = self.path_stack@;
        let ghost ac0 = self.address_cells_stack@;
        let ghost sc0 = self.size_cells_stack@;
        if let Some(data) = node_prop_data(node, "reg") {
            let all_cells = flatten_nums(data);
            let chunk_size: u64 = parent_addr_cells as u64 + parent_size_cells as u64;
            let ghost target = reg_chunks(
                all_cells@,
                parent_addr_cells as nat,
                chunk_size as nat,
                full_path_of(path),
            );
            if chunk_size > 0 && all_cells.len() > 0 {
                let fp = full_path(&self.path_stack);
                let mut pos: usize = 0;
                proof {
                    assert(all_cells@.skip(0) =~= all_cells@);
                }
                while pos < all_cells.len()
                    invariant_except_break
                        pos <= all_cells.len(),
                        self.path_stack@ == ps0,
                        self.address_cells_stack@ == ac0,
                        self.size_cells_stack@ == sc0,
                        0 < chunk_size,
                        chunk_size == parent_addr_cells + parent_size_cells,
                        fp@ == full_path_of(path),
                        target == reg_chunks(
                            all_cells@,
                            parent_addr_cells as nat,
                            chunk_size as nat,
                            fp@,
                        ),
                        regs0 + target == regs_view(self.regs@) + reg_chunks(
                            all_cells@.skip(pos as int),
                            parent_addr_cells as nat,
                            chunk_size as nat,
                            fp@,
                        ),
                    ensures
                        regs0 + target == regs_view(self.regs@),
                        self.path_stack@ == ps0,
                        self.address_cells_stack@ == ac0,
                        self.size_cells_stack@ == sc0,
                    decreases all_cells.len() - pos,
                {
                    let ghost rest = all_cells@.skip(pos as int);
                    if chunk_size > (all_cells.len() - pos) as u64 {
                        proof {
                            assert(reg_chunks(
                                rest,
                                parent_addr_cells as nat,
                                chunk_size as nat,
                                fp@,
                            ) =~= Seq::<RegInfoV>::empty());
                            assert(regs_view(self.regs@) + Seq::<RegInfoV>::empty() =~= regs_view(
                                self.regs@,
                            ));
                        }
                        break ;
                    }
                    let end = pos + chunk_size as usize;
                    let mid = pos + parent_addr_cells as usize;
                    let start_hex = fmt_parts(&all_cells, pos, mid);
                    let size_hex = fmt_parts(&all_cells, mid, end);
                    let info = RegInfo { alias: fp.clone(), start_hex, size_hex };
                    let ghost before = regs_view(self.regs@);
                    self.regs.push(info);
                    proof {
                        assert(rest.subrange(0, parent_addr_cells as int) =~= all_cells@.subrange(
                            pos as int,
                            mid as int,
                        ));
                        assert(rest.subrange(parent_addr_cells as int, chunk_size as int)
                            =~= all_cells@.subrange(mid as int, end as int));
                        assert(rest.skip(chunk_size as int) =~= all_cells@.skip(end as int));
                        assert(regs_view(self.regs@) =~= before.push(info@));
                        assert(reg_chunks(rest, parent_addr_cells as nat, chunk_size as nat, fp@)
                            == seq![info@] + reg_chunks(
                            all_cells@.skip(end as int),
                            parent_addr_cells as nat,
                            chunk_size as nat,
                            fp@,
                        ));
                        assert(before + (seq![info@] + reg_chunks(
                            all_cells@.skip(end as int),
                            parent_addr_cells as nat,
                            chunk_size as nat,
                            fp@,
                        )) =~= before.push(info@) + reg_chunks(
                            all_cells@.skip(end as int),
                            parent_addr_cells as nat,
                            chunk_size as nat,
                            fp@,
                        ));
                    }
                    pos = end;
                }
            } else {
                proof {
                    assert(target =~= Seq::<RegInfoV>::empty());
                    assert(regs_view(self.regs@) =~= regs0 + target);
                }
            }
        } else {
            proof {
                assert(regs_view(self.regs@) =~= regs0 + Seq::<RegInfoV>::empty());
            }
        }
        self.address_cells_stack.push(child_addr_cells);
        self.size_cells_stack.push(child_size_cells);
        proof {
            let sp = Self::spec_enter(s, name@, node@).0;
            assert(parent_addr_cells == top_or_one(s.addr_cells));
            assert(parent_size_cells == top_or_one(s.size_cells));
            assert(self@.path == sp.path);
            assert(self@.addr_cells == sp.addr_cells);
            assert(self@.size_cells == sp.size_cells);
            assert(self@.regs == sp.regs);
        }
        true
    }

    fn exit_node(&mut self, _name: &str, _node: &Node) {
        let ghost s = self@;
        self.address_cells_stack.pop();
        self.size_cells_stack.pop();
        self.path_stack.pop();
        proof {
            if s.path.len() > 0 {
                assert(strings_view(self.path_stack@) =~= s.path.drop_last());
            }
        }
    }
}

/// Walking a subtree leaves the cell-size stacks and the path as they were:
/// leaving each node pops what entering it pushed.
pub proof fn lemma_reg_extractor_walk_restores(s: RegExtractorV, name: Seq<char>, node: NodeV)
    ensures
        walk_spec::<RegExtractor>(s, name, node).addr_cells == s.addr_cells,
        walk_spec::<RegExtractor>(s, name, node).size_cells == s.size_cells,
        walk_spec::<RegExtractor>(s, name, node).path == s.path,
{
    let p = |v: RegExtractorV| (v.addr_cells, v.size_cells, v.path);
    assert forall|t: RegExtractorV, u: RegExtractorV, nm: Seq<char>, nd: NodeV|
        #![trigger RegExtractor::spec_enter(t, nm, nd), RegExtractor::spec_exit(u, nm, nd)]
        p(u) == p(RegExtractor::spec_enter(t, nm, nd).0) implies p(RegExtractor::spec_exit(u, nm, nd)) == p(t) by {
        let e = RegExtractor::spec_enter(t, nm, nd).0;
        assert(e.addr_cells.drop_last() =~= t.addr_cells);
        assert(e.size_cells.drop_last() =~= t.size_cells);
        assert(e.path.drop_last() =~= t.path);
    }
    lemma_walk_keeps::<RegExtractor, (Seq<u32>, Seq<u32>, Seq<Seq<char>>)>(p, s, name, node);
}

/// Walking a subtree only appends to the registers found so far.
pub proof fn lemma_reg_extractor_walk_appends(s: RegExtractorV, name: Seq<char>, node: NodeV)
    ensures
        s.regs.is_prefix_of(walk_spec::<RegExtractor>(s, name, node).regs),
{
    let q = |v: RegExtractorV| v.regs;
    assert forall|t: RegExtractorV, nm: Seq<char>, nd: NodeV|
        #[trigger] q(t).is_prefix_of(q(RegExtractor::spec_enter(t, nm, nd).0)) by {
        let e = RegExtractor::spec_enter(t, nm, nd).0;
        assert(t.regs =~= e.regs.subrange(0, t.regs.len() as int));
    }
    assert forall|u: RegExtractorV, nm: Seq<char>, nd: NodeV|
        #[trigger] q(u).is_prefix_of(q(RegExtractor::spec_exit(u, nm, nd))) by {
        let e = RegExtractor::spec_exit(u, nm, nd);
        assert(u.regs =~= e.regs.subrange(0, u.regs.len() as int));
    }
    lemma_walk_appends::<RegExtractor, RegInfoV>(q, s, name, node);
}

// ---------------------------------------------------------------------------
// What a whole walk finds
// ---------------------------------------------------------------------------

/// The cell counts a node sets for its children: its own, else its parent's.
pub open spec fn child_cells(node: NodeV, key: Seq<char>, parent: u32) -> u32 {
    match u32_prop(node, key) {
        Some(v) => v,
        None => parent,
    }
}

/// The registers found under `node` (named `name`, below the path `path`),
/// in depth-first order, where its parent's cell counts are `pa` and `ps`:
/// each node's `reg` is read with its parent's counts.
pub open spec fn tree_regs(pa: u32, ps: u32, path: Seq<Seq<char>>, name: Seq<char>, node: NodeV) -> Seq<
    RegInfoV,
>
    decreases node, 0nat,
{
    let path2 = path.push(name);
    let here = node_regs(node, pa, ps, full_path_of(path2));
    match node {
        NodeV::Existing { children, .. } => here + children_regs(
            child_cells(node, "#address-cells"@, pa),
            child_cells(node, "#size-cells"@, ps),
            path2,
            children,
            0,
        ),
        NodeV::Deleted { .. } => here,
    }
}

/// `tree_regs` of `children[i..]`, concatenated.
pub open spec fn children_regs(
    pa: u32,
    ps: u32,
    path: Seq<Seq<char>>,
    children: Seq<(Seq<char>, NodeV)>,
    i: int,
) -> Seq<RegInfoV>
    decreases children, children.len() - i,
{
    if 0 <= i < children.len() {
        tree_regs(pa, ps, path, children[i].0, children[i].1) + children_regs(
            pa,
            ps,
            path,
            children,
            i + 1,
        )
    } else {
        Seq::empty()
    }
}

proof fn lemma_reg_walk_regs(s: RegExtractorV, name: Seq<char>, node: NodeV)
    ensures
        walk_spec::<RegExtractor>(s, name, node).regs == s.regs + tree_regs(
            top_or_one(s.addr_cells),
            top_or_one(s.size_cells),
            s.path,
            name,
            node,
        ),
    decreases node, 0nat,
{
    let s1 = RegExtractor::spec_enter(s, name, node).0;
    let pa = top_or_one(s.addr_cells);
    let ps = top_or_one(s.size_cells);
    let here = node_regs(node, pa, ps, full_path_of(s.path.push(name)));
    if let NodeV::Existing { children, .. } = node {
        lemma_reg_walk_children(s1, children, 0);
        let rest = children_regs(top_or_one(s1.addr_cells), top_or_one(s1.size_cells), s1.path, children, 0);
        assert(s.regs + here + rest =~= s.regs + (here + rest));
    }
}

proof fn lemma_reg_walk_children(s: RegExtractorV, children: Seq<(Seq<char>, NodeV)>, i: int)
    ensures
        walk_children::<RegExtractor>(s, children, i).regs == s.regs + children_regs(
            top_or_one(s.addr_cells),
            top_or_one(s.size_cells),
            s.path,
            children,
            i,
        ),
    decreases children, children.len() - i,
{
    if 0 <= i < children.len() {
        lemma_reg_walk_regs(s, children[i].0, children[i].1);
        lemma_reg_extractor_walk_restores(s, children[i].0, children[i].1);
        let s1 = walk_spec::<RegExtractor>(s, children[i].0, children[i].1);
        lemma_reg_walk_children(s1, children, i + 1);
        let a = tree_regs(
            top_or_one(s.addr_cells),
            top_or_one(s.size_cells),
            s.path,
            children[i].0,
            children[i].1,
        );
        let b = children_regs(top_or_one(s.addr_cells), top_or_one(s.size_cells), s.path, children, i + 1);
        assert(s.regs + a + b =~= s.regs + (a + b));
    } else {
        assert(s.regs + Seq::<RegInfoV>::empty() =~= s.regs);
    }
}

/// A walk of a new extractor over `node` (named `name`) finds the registers
/// of every node in depth-first order, each node's `reg` read with the cell
/// counts its parent sets (1 and 1 above the root).
pub proof fn lemma_reg_walk(name: Seq<char>, node: NodeV)
    ensures
        walk_spec::<RegExtractor>(
            RegExtractorV {
                addr_cells: seq![1u32],
                size_cells: seq![1u32],
                path: Seq::empty(),
                regs: Seq::empty(),
            },
            name,
            node,
        ).regs == tree_regs(1, 1, Seq::empty(), name, node),
{
    let s = RegExtractorV {
        addr_cells: seq![1u32],
        size_cells: seq![1u32],
        path: Seq::empty(),
        regs: Seq::empty(),
    };
    lemma_reg_walk_regs(s, name, node);
    assert(Seq::<RegInfoV>::empty() + tree_regs(1, 1, Seq::empty(), name, node) =~= tree_regs(
        1,
        1,
        Seq::empty(),
        name,
        node,
    ));
}

} // verus!
