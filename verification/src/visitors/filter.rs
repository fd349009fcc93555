//! Removal of the subtrees whose root a predicate selects.

use crate::dts::tree::{
    children_insert, entries_insert, find_key, keys_unique, lemma_find_key, node_prop_data,
    nodes_view, strip_children, with_children, DataV, Data, Node, NodeV,
};
use crate::text::str_eq;
use crate::visitors::{walk_children, walk_spec, Visitor};
use vstd::prelude::*;

verus! {

/// `f` can be called on every node and answers according to the node's view.
pub open spec fn predicate_ok<F: Fn(&Node) -> bool>(f: F) -> bool {
    &&& forall|e: &Node| #[trigger] call_requires(f, (e,))
    &&& forall|e1: &Node, e2: &Node, r1: bool, r2: bool|
        #![trigger call_ensures(f, (e1,), r1), call_ensures(f, (e2,), r2)]
        e1@ == e2@ && call_ensures(f, (e1,), r1) && call_ensures(f, (e2,), r2) ==> r1 == r2
}

/// Whether predicate `f` selects (removes) nodes with view `n`.
pub open spec fn removes<F: Fn(&Node) -> bool>(f: F, n: NodeV) -> bool {
    exists|e: &Node| e@ == n && #[trigger] call_ensures(f, (e,), true)
}

/// The state of a `NodeFilter` as seen by specifications.
pub struct NodeFilterV<F> {
    pub pred: F,
    pub stack: Seq<NodeV>,
    pub root: Option<NodeV>,
}

/// A visitor that filters nodes based on a predicate.
///
/// It constructs a new tree containing only the nodes (and their subtrees)
/// for which the predicate returns `false`. If the predicate returns `true`,
/// the node and its children are excluded.
pub struct NodeFilter<F> where F: Fn(&Node) -> bool {
    predicate: F,
    // The partially built copies of the nodes being visited.
    stack: Vec<Node>,
    /// The resulting root of the new tree.
    pub root: Option<Node>,
}

impl<F> View for NodeFilter<F> where F: Fn(&Node) -> bool {
    type V = NodeFilterV<F>;

    closed spec fn view(&self) -> NodeFilterV<F> {
        NodeFilterV {
            pred: self.predicate,
            stack: nodes_view(self.stack@),
            root: match self.root {
                Some(r) => Some(r@),
                None => None,
            },
        }
    }
}

impl<F> NodeFilter<F> where F: Fn(&Node) -> bool {
    /// Creates a new `NodeFilter` with the given predicate, which returns
    /// `true` for the nodes to exclude and `false` for those to keep.
    /// The predicate is not called here; walking the filter calls it on the
    /// nodes visited.
    pub fn new(predicate: F) -> (r: Self)
        ensures
            r@ == (NodeFilterV { pred: predicate, stack: Seq::empty(), root: None }),
    {
        let r = Self { predicate, stack: Vec::new(), root: None };
        proof {
            assert(r@.stack =~= Seq::<NodeV>::empty());
        }
        r
    }

    /// The filtered tree, once the walk has left the root.
    pub fn root(&self) -> (r: &Option<Node>)
        ensures
            match r {
                Some(n) => self@.root == Some(n@),
                None => self@.root is None,
            },
    {
        &self.root
    }

    fn test(&self, node: &Node) -> (r: bool)
        requires
            predicate_ok(self@.pred),
        ensures
            r == removes(self@.pred, node@),
    {
        let r = (self.predicate)(node);
        proof {
            if !r {
                if removes(self.predicate, node@) {
                    let e = choose|e: &Node| e@ == node@ && #[trigger] call_ensures(
                        self.predicate,
                        (e,),
                        true,
                    );
                    assert(call_ensures(self.predicate, (e,), true));
                    assert(call_ensures(self.predicate, (node,), r));
                }
            }
        }
        r
    }
}

impl<F> Visitor for NodeFilter<F> where F: Fn(&Node) -> bool {
    /// The predicate can be called on every node and answers by the node's
    /// view.
    open spec fn ready(s: NodeFilterV<F>) -> bool {
        predicate_ok(s.pred)
    }

    proof fn lemma_ready_kept(s: NodeFilterV<F>, name: Seq<char>, node: NodeV) {
    }

    open spec fn spec_enter(s: NodeFilterV<F>, name: Seq<char>, node: NodeV) -> (NodeFilterV<F>, bool) {
        if removes(s.pred, node) {
            (s, false)
        } else {
            (NodeFilterV { stack: s.stack.push(strip_children(node)), ..s }, true)
        }
    }

    open spec fn spec_exit(s: NodeFilterV<F>, name: Seq<char>, node: NodeV) -> NodeFilterV<F> {
        if removes(s.pred, node) || s.stack.len() == 0 {
            s
        } else {
            let new_node = s.stack.last();
            let rest = s.stack.drop_last();
            if rest.len() == 0 {
                NodeFilterV { stack: rest, root: Some(new_node), ..s }
            } else {
                let parent = rest.last();
                match parent {
                    NodeV::Existing { children, .. } => NodeFilterV {
                        stack: rest.update(
                            rest.len() - 1,
                            crate::dts::tree::with_children(
                                parent,
                                entries_insert(children, name, new_node),
                            ),
                        ),
                        ..s
                    },
                    NodeV::Deleted { .. } => NodeFilterV { stack: rest, ..s },
                }
            }
        }
    }

    fn enter_node(&mut self, _name: &str, node: &Node) -> (r: bool) {
        // `true` from the predicate means "remove": skip the node and its children.
        if self.test(node) {
            return false;
        }
        let new_node = node.clone_without_children();
        let ghost old_stack = self.stack@;
        let ghost nv = new_node@;
        self.stack.push(new_node);
        proof {
            assert(nodes_view(self.stack@) =~= nodes_view(old_stack).push(nv));
        }
        true
    }

    fn exit_node(&mut self, name: &str, node: &Node) {
        // A removed node was never pushed.
        if self.test(node) {
            return ;
        }
        let ghost s = self@;
        if let Some(new_node) = self.stack.pop() {
            proof {
                assert(nodes_view(self.stack@) =~= s.stack.drop_last());
            }
            if self.stack.len() == 0 {
                // This was the root.
                self.root = Some(new_node);
            } else {
                let last = self.stack.len() - 1;
                let ghost before = self.stack@;
                let mut parent = self.stack.remove(last);
                let ghost pv = parent@;
                let ghost newv = new_node@;
                proof {
                    assert(pv == before[last as int]@);
                    assert(s.stack.drop_last().last() == pv);
                }
                if let Node::Existing { children, .. } = &mut parent {
                    // Use the name passed from Walker (the key in the parent map).
                    children_insert(children, String::from_str(name), new_node);
                }
                proof {
                    if pv is Existing {
                        assert(parent@ == crate::dts::tree::with_children(
                            pv,
                            entries_insert(pv.children(), name@, newv),
                        ));
                    } else {
                        assert(parent@ == pv);
                    }
                }
                let ghost nv = parent@;
                self.stack.push(parent);
                proof {
                    assert(self.stack@ =~= before.update(last as int, self.stack@.last()));
                    assert(nodes_view(self.stack@) =~= nodes_view(before).update(last as int, nv));
                    assert(s.stack.last() == newv);
                    let sp = Self::spec_exit(s, name@, node@);
                    assert(self@.stack == sp.stack);
                    assert(self@.root == sp.root);
                    assert(self@.pred == sp.pred);
                }
            }
        }
    }
}

/// Whether `node` has `status = "disabled"`: a `status` property one of whose
/// pieces is the string `disabled`.
pub open spec fn is_disabled_spec(node: NodeV) -> bool {
    match node.prop_data("status"@) {
        Some(data) => exists|i: int|
            0 <= i < data.len() && #[trigger] data[i] == DataV::Str("disabled"@),
        None => false,
    }
}

/// Whether `node` has `status = "disabled"` (the predicate the `filter`
/// command uses).
pub fn is_disabled(node: &Node) -> (r: bool)
    ensures
        r == is_disabled_spec(node@),
{
    if let Some(data) = node_prop_data(node, "status") {
        let ghost dv = crate::dts::tree::datas_view(data@);
        let mut i: usize = 0;
        while i < data.len()
            invariant
                i <= data.len(),
                dv == crate::dts::tree::datas_view(data@),
                node@.prop_data("status"@) == Some(dv),
                forall|j: int| 0 <= j < i ==> dv[j] != DataV::Str("disabled"@),
            decreases data.len() - i,
        {
            if let Data::String(s) = &data[i] {
                if str_eq(s.as_str(), "disabled") {
                    proof {
                        assert(dv[i as int] == DataV::Str("disabled"@));
                    }
                    return true;
                }
            }
            proof {
                assert(dv[i as int] == data@[i as int]@);
            }
            i = i + 1;
        }
    }
    false
}

// ---------------------------------------------------------------------------
// What a walk builds
// ---------------------------------------------------------------------------

/// The tree under `n` without the subtrees whose root `pred` removes; each
/// kept child is put back under its key, in order.
pub open spec fn filtered<F: Fn(&Node) -> bool>(pred: F, n: NodeV) -> NodeV
    decreases n, 0nat,
{
    match n {
        NodeV::Existing { children, .. } => with_children(
            n,
            filter_fold(pred, Seq::empty(), children, 0),
        ),
        NodeV::Deleted { .. } => n,
    }
}

/// `acc` with the kept children among `children[i..]` put in, filtered.
pub open spec fn filter_fold<F: Fn(&Node) -> bool>(
    pred: F,
    acc: Seq<(Seq<char>, NodeV)>,
    children: Seq<(Seq<char>, NodeV)>,
    i: int,
) -> Seq<(Seq<char>, NodeV)>
    decreases children, children.len() - i,
{
    if 0 <= i < children.len() {
        let acc2 = if removes(pred, children[i].1) {
            acc
        } else {
            entries_insert(acc, children[i].0, filtered(pred, children[i].1))
        };
        filter_fold(pred, acc2, children, i + 1)
    } else {
        acc
    }
}

/// `s` with the children of the node on top of its stack replaced.
pub open spec fn set_top<F>(s: NodeFilterV<F>, children: Seq<(Seq<char>, NodeV)>) -> NodeFilterV<F> {
    NodeFilterV {
        stack: s.stack.update(s.stack.len() - 1, with_children(s.stack.last(), children)),
        ..s
    }
}

proof fn lemma_filter_walk_step<F: Fn(&Node) -> bool>(s: NodeFilterV<F>, name: Seq<char>, n: NodeV)
    requires
        s.stack.len() > 0,
        s.stack.last() is Existing,
    ensures
        walk_spec::<NodeFilter<F>>(s, name, n) == if removes(s.pred, n) {
            s
        } else {
            set_top(s, entries_insert(s.stack.last().children(), name, filtered(s.pred, n)))
        },
    decreases n, 0nat,
{
    if !removes(s.pred, n) {
        let s1 = NodeFilterV { stack: s.stack.push(strip_children(n)), ..s };
        assert(NodeFilter::<F>::spec_enter(s, name, n) == (s1, true));
        if let NodeV::Existing { children, .. } = n {
            lemma_filter_walk_children(s1, children, 0);
            let s2 = walk_children::<NodeFilter<F>>(s1, children, 0);
            assert(s2.stack.last() == filtered(s.pred, n));
            assert(s2.stack.drop_last() =~= s.stack);
        } else {
            assert(s1.stack.drop_last() =~= s.stack);
        }
    }
}

proof fn lemma_filter_walk_children<F: Fn(&Node) -> bool>(
    s: NodeFilterV<F>,
    children: Seq<(Seq<char>, NodeV)>,
    i: int,
)
    requires
        s.stack.len() > 0,
        s.stack.last() is Existing,
    ensures
        walk_children::<NodeFilter<F>>(s, children, i) == set_top(
            s,
            filter_fold(s.pred, s.stack.last().children(), children, i),
        ),
    decreases children, children.len() - i,
{
    if 0 <= i < children.len() {
        lemma_filter_walk_step(s, children[i].0, children[i].1);
        let s1 = walk_spec::<NodeFilter<F>>(s, children[i].0, children[i].1);
        lemma_filter_walk_children(s1, children, i + 1);
        let acc = s.stack.last().children();
        let acc2 = if removes(s.pred, children[i].1) {
            acc
        } else {
            entries_insert(acc, children[i].0, filtered(s.pred, children[i].1))
        };
        assert(s1.stack.last().children() == acc2);
        let f = filter_fold(s.pred, acc2, children, i + 1);
        assert(set_top(s1, f).stack =~= set_top(s, f).stack);
    } else {
        assert(s.stack.update(s.stack.len() - 1, with_children(s.stack.last(), s.stack.last().children()))
            =~= s.stack);
    }
}

/// Walking a tree with a new filter builds the tree without the subtrees
/// whose root the predicate selects (and nothing when it selects the root).
pub proof fn lemma_filter_walk<F: Fn(&Node) -> bool>(pred: F, name: Seq<char>, n: NodeV)
    ensures
        walk_spec::<NodeFilter<F>>(
            NodeFilterV { pred, stack: Seq::empty(), root: None },
            name,
            n,
        ).root == if removes(pred, n) {
            None
        } else {
            Some(filtered(pred, n))
        },
{
    let s = NodeFilterV { pred, stack: Seq::<NodeV>::empty(), root: None };
    if !removes(pred, n) {
        let s1 = NodeFilterV { stack: s.stack.push(strip_children(n)), ..s };
        assert(NodeFilter::<F>::spec_enter(s, name, n) == (s1, true));
        if let NodeV::Existing { children, .. } = n {
            lemma_filter_walk_children(s1, children, 0);
            let s2 = walk_children::<NodeFilter<F>>(s1, children, 0);
            assert(s2.stack.last() == filtered(pred, n));
            assert(s2.stack.drop_last() =~= Seq::<NodeV>::empty());
        } else {
            assert(s1.stack.drop_last() =~= Seq::<NodeV>::empty());
        }
    }
}

// ---------------------------------------------------------------------------
// Filtering twice
// ---------------------------------------------------------------------------

/// `pred` decides by a node's own fields, whatever its children.
pub open spec fn ignores_children<F: Fn(&Node) -> bool>(pred: F) -> bool {
    forall|m: NodeV, ch: Seq<(Seq<char>, NodeV)>|
        #[trigger] removes(pred, with_children(m, ch)) == removes(pred, m)
}

proof fn lemma_filter_fold_from<F: Fn(&Node) -> bool>(
    pred: F,
    acc: Seq<(Seq<char>, NodeV)>,
    children: Seq<(Seq<char>, NodeV)>,
    i: int,
)
    requires
        0 <= i,
    ensures
        keys_unique(acc) ==> keys_unique(filter_fold(pred, acc, children, i)),
        forall|j: int|
            0 <= j < filter_fold(pred, acc, children, i).len() ==> {
                let e = #[trigger] filter_fold(pred, acc, children, i)[j];
                (exists|a: int| 0 <= a < acc.len() && e == acc[a]) || (exists|m: int|
                    i <= m < children.len() && !removes(pred, children[m].1) && e.1 == filtered(
                        pred,
                        children[m].1,
                    ))
            },
    decreases children.len() - i,
{
    if i < children.len() {
        let acc2 = if removes(pred, children[i].1) {
            acc
        } else {
            entries_insert(acc, children[i].0, filtered(pred, children[i].1))
        };
        lemma_find_key(acc, children[i].0);
        lemma_filter_fold_from(pred, acc2, children, i + 1);
        let r = filter_fold(pred, acc, children, i);
        assert forall|j: int| 0 <= j < r.len() implies {
            let e = #[trigger] r[j];
            (exists|a: int| 0 <= a < acc.len() && e == acc[a]) || (exists|m: int|
                i <= m < children.len() && !removes(pred, children[m].1) && e.1 == filtered(
                    pred,
                    children[m].1,
                ))
        } by {
            assert(r == filter_fold(pred, acc2, children, i + 1));
            let e = r[j];
            if exists|a: int| 0 <= a < acc2.len() && e == acc2[a] {
                let a = choose|a: int| 0 <= a < acc2.len() && e == acc2[a];
                if removes(pred, children[i].1) {
                    assert(e == acc[a]);
                } else {
                    let f = filtered(pred, children[i].1);
                    match find_key(acc, children[i].0) {
                        Some(x) => {
                            if a != x {
                                assert(acc2[a] == acc[a]);
                                assert(e == acc[a]);
                            } else {
                                assert(e.1 == f);
                            }
                        },
                        None => {
                            if a < acc.len() {
                                assert(acc2[a] == acc[a]);
                                assert(e == acc[a]);
                            } else {
                                assert(e.1 == f);
                            }
                        },
                    }
                }
            } else {
                let m = choose|m: int|
                    i + 1 <= m < children.len() && !removes(pred, children[m].1) && e.1 == filtered(
                        pred,
                        children[m].1,
                    );
                assert(i <= m);
            }
        }
    }
}

proof fn lemma_filter_fold_fixed<F: Fn(&Node) -> bool>(
    pred: F,
    l: Seq<(Seq<char>, NodeV)>,
    j: int,
)
    requires
        0 <= j <= l.len(),
        keys_unique(l),
        forall|a: int|
            0 <= a < l.len() ==> !removes(pred, #[trigger] l[a].1) && filtered(pred, l[a].1)
                == l[a].1,
    ensures
        filter_fold(pred, l.subrange(0, j), l, j) == l,
    decreases l.len() - j,
{
    if j < l.len() {
        let acc = l.subrange(0, j);
        lemma_find_key(acc, l[j].0);
        if let Some(x) = find_key(acc, l[j].0) {
            assert(acc[x] == l[x]);
        }
        assert(entries_insert(acc, l[j].0, filtered(pred, l[j].1)) =~= l.subrange(0, j + 1));
        lemma_filter_fold_fixed(pred, l, j + 1);
    } else {
        assert(l.subrange(0, j) =~= l);
    }
}

/// Filtering a filtered tree again with the same predicate removes nothing,
/// where the predicate decides by a node's own fields; so a second walk of a
/// new filter over the filtered tree gives it back.
pub proof fn lemma_filter_twice<F: Fn(&Node) -> bool>(pred: F, n: NodeV)
    requires
        ignores_children(pred),
    ensures
        filtered(pred, filtered(pred, n)) == filtered(pred, n),
        removes(pred, filtered(pred, n)) == removes(pred, n),
    decreases n,
{
    if let NodeV::Existing { children, .. } = n {
        let l = filter_fold(pred, Seq::empty(), children, 0);
        lemma_filter_fold_from(pred, Seq::empty(), children, 0);
        assert(keys_unique(Seq::<(Seq<char>, NodeV)>::empty()));
        assert forall|m: int| 0 <= m < children.len() implies filtered(
            pred,
            filtered(pred, #[trigger] children[m].1),
        ) == filtered(pred, children[m].1) && removes(pred, filtered(pred, children[m].1))
            == removes(pred, children[m].1) by {
            lemma_filter_twice(pred, children[m].1);
        }
        assert forall|a: int| 0 <= a < l.len() implies !removes(pred, #[trigger] l[a].1) && filtered(
            pred,
            l[a].1,
        ) == l[a].1 by {
            let e = l[a];
            let m = choose|m: int|
                0 <= m < children.len() && !removes(pred, children[m].1) && e.1 == filtered(
                    pred,
                    children[m].1,
                );
        }
        lemma_filter_fold_fixed(pred, l, 0);
        assert(l.subrange(0, 0) =~= Seq::<(Seq<char>, NodeV)>::empty());
        assert(removes(pred, with_children(n, l)) == removes(pred, n));
    }
}

} // verus!
