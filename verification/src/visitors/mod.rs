//! Depth-first traversal of a device tree with pluggable visitors.

use crate::dts::tree::{children_view, lemma_children_view, Node, NodeV};
use crate::text::{concat, join, join_strings, str_eq, strings_view};
use vstd::prelude::*;

pub mod dependency;
pub mod device_pinctrl;
pub mod filter;
pub mod interrupts;
pub mod pinctrl;
pub mod reg_extractor;
pub mod sorter;
pub mod writer;

verus! {

/// Logic run when the walker enters and leaves each node.
///
/// A visitor is described by its view: `spec_enter` gives the view after
/// entering a node together with whether the node's children are visited,
/// and `spec_exit` the view after leaving it.
pub trait Visitor: View + Sized {
    /// The view after entering `node` (named `name`), and whether to descend.
    spec fn spec_enter(s: Self::V, name: Seq<char>, node: NodeV) -> (Self::V, bool);

    /// The view after leaving `node` (named `name`).
    spec fn spec_exit(s: Self::V, name: Seq<char>, node: NodeV) -> Self::V;

    /// What the visitor's methods need of its state, such as a callback that
    /// can be called on every node.
    spec fn ready(s: Self::V) -> bool;

    /// Entering and leaving a node keep the state ready.
    proof fn lemma_ready_kept(s: Self::V, name: Seq<char>, node: NodeV)
        requires
            Self::ready(s),
        ensures
            Self::ready(Self::spec_enter(s, name, node).0),
            Self::ready(Self::spec_exit(s, name, node)),
    ;

    /// Called before the children of `node`; returns whether to visit them.
    fn enter_node(&mut self, name: &str, node: &Node) -> (r: bool)
        requires
            Self::ready(old(self)@),
        ensures
            (final(self)@, r) == Self::spec_enter(old(self)@, name@, node@),
    ;

    /// Called after the children of `node` (or right after `enter_node` when
    /// they were skipped).
    fn exit_node(&mut self, name: &str, node: &Node)
        requires
            Self::ready(old(self)@),
        ensures
            final(self)@ == Self::spec_exit(old(self)@, name@, node@),
    ;
}

/// A walk keeps the visitor ready.
pub proof fn lemma_walk_ready<V: Visitor>(s: V::V, name: Seq<char>, node: NodeV)
    requires
        V::ready(s),
    ensures
        V::ready(walk_spec::<V>(s, name, node)),
    decreases node, 0nat,
{
    V::lemma_ready_kept(s, name, node);
    let (s1, descend) = V::spec_enter(s, name, node);
    let s2 = if descend {
        match node {
            NodeV::Existing { children, .. } => walk_children::<V>(s1, children, 0),
            NodeV::Deleted { .. } => s1,
        }
    } else {
        s1
    };
    if descend {
        if let NodeV::Existing { children, .. } = node {
            lemma_walk_children_ready::<V>(s1, children, 0);
        }
    }
    V::lemma_ready_kept(s2, name, node);
}

/// `lemma_walk_ready` for the walk of `children[i..]`.
pub proof fn lemma_walk_children_ready<V: Visitor>(
    s: V::V,
    children: Seq<(Seq<char>, NodeV)>,
    i: int,
)
    requires
        V::ready(s),
    ensures
        V::ready(walk_children::<V>(s, children, i)),
    decreases children, children.len() - i,
{
    if 0 <= i < children.len() {
        lemma_walk_ready::<V>(s, children[i].0, children[i].1);
        lemma_walk_children_ready::<V>(
            walk_spec::<V>(s, children[i].0, children[i].1),
            children,
            i + 1,
        );
    }
}

/// The view of visitor `V` after walking `node` from view `s`: enter, walk
/// the children in order when asked to, exit.
pub open spec fn walk_spec<V: Visitor>(s: V::V, name: Seq<char>, node: NodeV) -> V::V
    decreases node, 0nat,
{
    let (s1, descend) = V::spec_enter(s, name, node);
    let s2 = if descend {
        match node {
            NodeV::Existing { children, .. } => walk_children::<V>(s1, children, 0),
            NodeV::Deleted { .. } => s1,
        }
    } else {
        s1
    };
    V::spec_exit(s2, name, node)
}

/// The view of visitor `V` after walking `children[i..]` in order from view `s`.
pub open spec fn walk_children<V: Visitor>(
    s: V::V,
    children: Seq<(Seq<char>, NodeV)>,
    i: int,
) -> V::V
    decreases children, children.len() - i,
{
    if 0 <= i < children.len() {
        walk_children::<V>(walk_spec::<V>(s, children[i].0, children[i].1), children, i + 1)
    } else {
        s
    }
}

/// Traverses device trees depth-first.
pub struct Walker;

impl Walker {
    /// Walks the tree under `node` (named `name`): enters it, walks its
    /// children in order if the visitor asks to, and exits it.
    pub fn walk<T: Visitor>(node: &Node, name: &str, visitor: &mut T)
        requires
            T::ready(old(visitor)@),
        ensures
            final(visitor)@ == walk_spec::<T>(old(visitor)@, name@, node@),
        decreases node,
    {
        let ghost s0 = visitor@;
        proof {
            T::lemma_ready_kept(s0, name@, node@);
        }
        let descend = visitor.enter_node(name, node);
        let ghost s1 = visitor@;
        if descend {
            if let Node::Existing { children, .. } = node {
                let ghost cv = children_view(children@);
                proof {
                    lemma_children_view(children@);
                }
                let mut i: usize = 0;
                while i < children.len()
                    invariant
                        i <= children.len(),
                        *node is Existing,
                        *children == node->children,
                        cv == children_view(children@),
                        cv.len() == children@.len(),
                        forall|j: int|
                            0 <= j < children@.len() ==> #[trigger] cv[j] == (
                                children@[j].0@,
                                children@[j].1@,
                            ),
                        walk_children::<T>(s1, cv, 0) == walk_children::<T>(visitor@, cv, i as int),
                        T::ready(visitor@),
                    decreases children.len() - i,
                {
                    let ghost before = visitor@;
                    assert(cv[i as int] == (children@[i as int].0@, children@[i as int].1@));
                    proof {
                        assert(decreases_to!(*node => *children));
                        assert(decreases_to!(*children => children@));
                        assert(decreases_to!(children@ => children@[i as int]));
                        assert(decreases_to!(children@[i as int] => children@[i as int].1));
                    }
                    Walker::walk(&children[i].1, children[i].0.as_str(), visitor);
                    proof {
                        lemma_walk_ready::<T>(before, children@[i as int].0@, children@[i as int].1@);
                    }
                    i = i + 1;
                }
            }
        }
        proof {
            if descend {
                if let NodeV::Existing { children, .. } = node@ {
                    lemma_walk_children_ready::<T>(s1, children, 0);
                }
            }
        }
        visitor.exit_node(name, node);
    }
}

/// The absolute path of the node whose ancestors' names (the root's first)
/// are `stack`: the names after the root's, each preceded by `/`; `/` alone
/// for the root.
pub open spec fn full_path_of(stack: Seq<Seq<char>>) -> Seq<char> {
    seq!['/'] + join(stack.skip(1), seq!['/'])
}

/// The absolute path of the node at the top of `stack` (see `full_path_of`).
pub fn full_path(stack: &Vec<String>) -> (r: String)
    requires
        stack.len() >= 1,
    ensures
        r@ == full_path_of(strings_view(stack@)),
{
    let ghost views = strings_view(stack@);
    proof {
        reveal_strlit("/");
    }
    if stack.len() == 1 && str_eq(stack[0].as_str(), "/") {
        proof {
            assert(views.skip(1) =~= Seq::<Seq<char>>::empty());
            assert(seq!['/'] + join(views.skip(1), seq!['/']) =~= seq!['/']);
        }
        return String::from_str("/");
    }
    let mut rest: Vec<String> = Vec::new();
    let mut i: usize = 1;
    while i < stack.len()
        invariant
            1 <= i <= stack.len(),
            rest.len() == i - 1,
            views == strings_view(stack@),
            strings_view(rest@) == views.subrange(1, i as int),
        decreases stack.len() - i,
    {
        let ghost old_rest = rest@;
        let c = stack[i].clone();
        rest.push(c);
        proof {
            assert(views[i as int] == stack@[i as int]@);
            assert(rest@ == old_rest.push(c));
            assert forall|k: int| 0 <= k < rest@.len() implies #[trigger] strings_view(rest@)[k]
                == views.subrange(1, i + 1)[k] by {
                if k < old_rest.len() {
                    assert(rest@[k] == old_rest[k]);
                    assert(strings_view(old_rest)[k] == old_rest[k]@);
                    assert(strings_view(old_rest)[k] == views.subrange(1, i as int)[k]);
                }
            }
            assert(strings_view(rest@) =~= views.subrange(1, i + 1));
        }
        i = i + 1;
    }
    proof {
        assert(views.subrange(1, stack.len() as int) =~= views.skip(1));
    }
    let joined = join_strings(&rest, "/");
    let r = concat("/", joined.as_str());
    proof {
        assert("/"@ =~= seq!['/']);
    }
    r
}

/// Leaving a node gives back what `p` saw of the view before entering it,
/// whenever what `p` sees was left by the children as entering set it.
pub open spec fn exit_restores<V: Visitor, X>(p: spec_fn(V::V) -> X) -> bool {
    forall|t: V::V, u: V::V, nm: Seq<char>, nd: NodeV|
        #![trigger V::spec_enter(t, nm, nd), V::spec_exit(u, nm, nd)]
        p(u) == p(V::spec_enter(t, nm, nd).0) ==> p(V::spec_exit(u, nm, nd)) == p(t)
}

/// A walk leaves unchanged what `p` sees of the view, where leaving each
/// node restores it (`exit_restores`).
pub proof fn lemma_walk_keeps<V: Visitor, X>(
    p: spec_fn(V::V) -> X,
    s: V::V,
    name: Seq<char>,
    node: NodeV,
)
    requires
        exit_restores::<V, X>(p),
    ensures
        p(walk_spec::<V>(s, name, node)) == p(s),
    decreases node, 0nat,
{
    let (s1, descend) = V::spec_enter(s, name, node);
    let s2 = if descend {
        match node {
            NodeV::Existing { children, .. } => walk_children::<V>(s1, children, 0),
            NodeV::Deleted { .. } => s1,
        }
    } else {
        s1
    };
    if descend {
        if let NodeV::Existing { children, .. } = node {
            lemma_walk_children_keeps::<V, X>(p, s1, children, 0);
        }
    }
    assert(p(s2) == p(V::spec_enter(s, name, node).0));
    assert(p(V::spec_exit(s2, name, node)) == p(s));
}

/// `lemma_walk_keeps` for the walk of `children[i..]`.
pub proof fn lemma_walk_children_keeps<V: Visitor, X>(
    p: spec_fn(V::V) -> X,
    s: V::V,
    children: Seq<(Seq<char>, NodeV)>,
    i: int,
)
    requires
        exit_restores::<V, X>(p),
    ensures
        p(walk_children::<V>(s, children, i)) == p(s),
    decreases children, children.len() - i,
{
    if 0 <= i < children.len() {
        lemma_walk_keeps::<V, X>(p, s, children[i].0, children[i].1);
        lemma_walk_children_keeps::<V, X>(
            p,
            walk_spec::<V>(s, children[i].0, children[i].1),
            children,
            i + 1,
        );
    }
}

/// Entering and leaving a node only append to what `q` sees of the view.
pub open spec fn only_appends<V: Visitor, A>(q: spec_fn(V::V) -> Seq<A>) -> bool {
    &&& forall|t: V::V, nm: Seq<char>, nd: NodeV|
        #[trigger] q(t).is_prefix_of(q(V::spec_enter(t, nm, nd).0))
    &&& forall|u: V::V, nm: Seq<char>, nd: NodeV|
        #[trigger] q(u).is_prefix_of(q(V::spec_exit(u, nm, nd)))
}

proof fn lemma_prefix_trans<A>(a: Seq<A>, b: Seq<A>, c: Seq<A>)
    requires
        a.is_prefix_of(b),
        b.is_prefix_of(c),
    ensures
        a.is_prefix_of(c),
{
    assert(a =~= c.subrange(0, a.len() as int));
}

/// A walk only appends to what `q` sees of the view, where entering and
/// leaving each node do (`only_appends`).
pub proof fn lemma_walk_appends<V: Visitor, A>(
    q: spec_fn(V::V) -> Seq<A>,
    s: V::V,
    name: Seq<char>,
    node: NodeV,
)
    requires
        only_appends::<V, A>(q),
    ensures
        q(s).is_prefix_of(q(walk_spec::<V>(s, name, node))),
    decreases node, 0nat,
{
    let (s1, descend) = V::spec_enter(s, name, node);
    let s2 = if descend {
        match node {
            NodeV::Existing { children, .. } => walk_children::<V>(s1, children, 0),
            NodeV::Deleted { .. } => s1,
        }
    } else {
        s1
    };
    assert(q(s).is_prefix_of(q(s1)));
    if descend {
        if let NodeV::Existing { children, .. } = node {
            lemma_walk_children_appends::<V, A>(q, s1, children, 0);
        }
    } else {
        assert(q(s1) =~= q(s2).subrange(0, q(s1).len() as int));
    }
    if !(node is Existing) {
        assert(q(s1) =~= q(s2).subrange(0, q(s1).len() as int));
    }
    lemma_prefix_trans(q(s), q(s1), q(s2));
    assert(q(s2).is_prefix_of(q(V::spec_exit(s2, name, node))));
    lemma_prefix_trans(q(s), q(s2), q(V::spec_exit(s2, name, node)));
}

/// `lemma_walk_appends` for the walk of `children[i..]`.
pub proof fn lemma_walk_children_appends<V: Visitor, A>(
    q: spec_fn(V::V) -> Seq<A>,
    s: V::V,
    children: Seq<(Seq<char>, NodeV)>,
    i: int,
)
    requires
        only_appends::<V, A>(q),
    ensures
        q(s).is_prefix_of(q(walk_children::<V>(s, children, i))),
    decreases children, children.len() - i,
{
    if 0 <= i < children.len() {
        let s1 = walk_spec::<V>(s, children[i].0, children[i].1);
        lemma_walk_appends::<V, A>(q, s, children[i].0, children[i].1);
        lemma_walk_children_appends::<V, A>(q, s1, children, i + 1);
        lemma_prefix_trans(q(s), q(s1), q(walk_children::<V>(s1, children, i + 1)));
    } else {
        assert(q(s) =~= q(s).subrange(0, q(s).len() as int));
    }
}

// ---------------------------------------------------------------------------
// The calls a walk makes
// ---------------------------------------------------------------------------

/// A call the walker makes on a visitor.
pub enum WalkEvent {
    Enter(Seq<char>, NodeV),
    Exit(Seq<char>, NodeV),
}

/// The calls a walk of `node` (named `name`) makes on visitor `V` from view
/// `s`, in order: enter, the walks of the children when asked to, exit.
pub open spec fn walk_events<V: Visitor>(s: V::V, name: Seq<char>, node: NodeV) -> Seq<WalkEvent>
    decreases node, 0nat,
{
    let (s1, descend) = V::spec_enter(s, name, node);
    let inner = if descend {
        match node {
            NodeV::Existing { children, .. } => children_events::<V>(s1, children, 0),
            NodeV::Deleted { .. } => Seq::empty(),
        }
    } else {
        Seq::empty()
    };
    seq![WalkEvent::Enter(name, node)] + inner + seq![WalkEvent::Exit(name, node)]
}

/// The calls the walks of `children[i..]` make, in order.
pub open spec fn children_events<V: Visitor>(
    s: V::V,
    children: Seq<(Seq<char>, NodeV)>,
    i: int,
) -> Seq<WalkEvent>
    decreases children, children.len() - i,
{
    if 0 <= i < children.len() {
        walk_events::<V>(s, children[i].0, children[i].1) + children_events::<V>(
            walk_spec::<V>(s, children[i].0, children[i].1),
            children,
            i + 1,
        )
    } else {
        Seq::empty()
    }
}

/// The view after the calls `ev`, made in order from view `s`.
pub open spec fn apply_events<V: Visitor>(s: V::V, ev: Seq<WalkEvent>) -> V::V
    decreases ev.len(),
{
    if ev.len() == 0 {
        s
    } else {
        let s2 = apply_events::<V>(s, ev.drop_last());
        match ev.last() {
            WalkEvent::Enter(n, x) => V::spec_enter(s2, n, x).0,
            WalkEvent::Exit(n, x) => V::spec_exit(s2, n, x),
        }
    }
}

/// The stack of entered, not yet exited nodes after the calls `ev`, from
/// `st`; `None` where an exit does not match the innermost open enter.
pub open spec fn open_after(ev: Seq<WalkEvent>, st: Seq<(Seq<char>, NodeV)>) -> Option<
    Seq<(Seq<char>, NodeV)>,
>
    decreases ev.len(),
{
    if ev.len() == 0 {
        Some(st)
    } else {
        match open_after(ev.drop_last(), st) {
            None => None,
            Some(t) => match ev.last() {
                WalkEvent::Enter(n, x) => Some(t.push((n, x))),
                WalkEvent::Exit(n, x) => if t.len() > 0 && t.last() == (n, x) {
                    Some(t.drop_last())
                } else {
                    None
                },
            },
        }
    }
}

proof fn lemma_events_concat<V: Visitor>(
    s: V::V,
    st: Seq<(Seq<char>, NodeV)>,
    a: Seq<WalkEvent>,
    b: Seq<WalkEvent>,
)
    ensures
        apply_events::<V>(s, a + b) == apply_events::<V>(apply_events::<V>(s, a), b),
        open_after(a + b, st) == match open_after(a, st) {
            Some(t) => open_after(b, t),
            None => None,
        },
    decreases b.len(),
{
    if b.len() == 0 {
        assert(a + b =~= a);
        if let Some(t) = open_after(a, st) {
            assert(open_after(b, t) == Some(t));
        }
    } else {
        lemma_events_concat::<V>(s, st, a, b.drop_last());
        assert((a + b).drop_last() =~= a + b.drop_last());
        assert((a + b).last() == b.last());
        if open_after(a, st) is None {
            assert(open_after(a + b, st) is None);
        }
    }
}

/// A walk makes exactly the calls `walk_events` lists: walking is applying
/// them in order.
pub proof fn lemma_walk_is_events<V: Visitor>(s: V::V, name: Seq<char>, node: NodeV)
    ensures
        walk_spec::<V>(s, name, node) == apply_events::<V>(s, walk_events::<V>(s, name, node)),
    decreases node, 0nat,
{
    let (s1, descend) = V::spec_enter(s, name, node);
    let inner = if descend {
        match node {
            NodeV::Existing { children, .. } => children_events::<V>(s1, children, 0),
            NodeV::Deleted { .. } => Seq::<WalkEvent>::empty(),
        }
    } else {
        Seq::<WalkEvent>::empty()
    };
    let e0 = seq![WalkEvent::Enter(name, node)];
    let e1 = seq![WalkEvent::Exit(name, node)];
    let st = Seq::<(Seq<char>, NodeV)>::empty();
    lemma_events_concat::<V>(s, st, e0 + inner, e1);
    lemma_events_concat::<V>(s, st, e0, inner);
    assert(e0.drop_last() =~= Seq::<WalkEvent>::empty());
    assert(e0.last() == WalkEvent::Enter(name, node));
    assert(apply_events::<V>(s, e0.drop_last()) == s);
    assert(apply_events::<V>(s, e0) == s1);
    if descend {
        if let NodeV::Existing { children, .. } = node {
            lemma_children_are_events::<V>(s1, children, 0);
        }
    }
    let s2 = apply_events::<V>(s1, inner);
    assert(e1.drop_last() =~= Seq::<WalkEvent>::empty());
    assert(e1.last() == WalkEvent::Exit(name, node));
    assert(apply_events::<V>(s2, e1.drop_last()) == s2);
    assert(apply_events::<V>(s2, e1) == V::spec_exit(s2, name, node));
}

proof fn lemma_children_are_events<V: Visitor>(s: V::V, children: Seq<(Seq<char>, NodeV)>, i: int)
    ensures
        walk_children::<V>(s, children, i) == apply_events::<V>(
            s,
            children_events::<V>(s, children, i),
        ),
    decreases children, children.len() - i,
{
    if 0 <= i < children.len() {
        let a = walk_events::<V>(s, children[i].0, children[i].1);
        let s1 = walk_spec::<V>(s, children[i].0, children[i].1);
        let b = children_events::<V>(s1, children, i + 1);
        lemma_walk_is_events::<V>(s, children[i].0, children[i].1);
        lemma_children_are_events::<V>(s1, children, i + 1);
        lemma_events_concat::<V>(s, Seq::empty(), a, b);
    }
}

/// Every enter a walk makes is followed by exactly one exit with the same
/// name and node, and the calls nest: the stack of entered, not yet exited
/// nodes is back where it was when the walk ends, and no exit ever closes
/// another node than the innermost open one.
pub proof fn lemma_walk_events_nest<V: Visitor>(
    s: V::V,
    name: Seq<char>,
    node: NodeV,
    st: Seq<(Seq<char>, NodeV)>,
)
    ensures
        open_after(walk_events::<V>(s, name, node), st) == Some(st),
    decreases node, 0nat,
{
    let (s1, descend) = V::spec_enter(s, name, node);
    let inner = if descend {
        match node {
            NodeV::Existing { children, .. } => children_events::<V>(s1, children, 0),
            NodeV::Deleted { .. } => Seq::<WalkEvent>::empty(),
        }
    } else {
        Seq::<WalkEvent>::empty()
    };
    let e0 = seq![WalkEvent::Enter(name, node)];
    let e1 = seq![WalkEvent::Exit(name, node)];
    let st1 = st.push((name, node));
    lemma_events_concat::<V>(s, st, e0 + inner, e1);
    lemma_events_concat::<V>(s, st, e0, inner);
    assert(e0.drop_last() =~= Seq::<WalkEvent>::empty());
    assert(e0.last() == WalkEvent::Enter(name, node));
    assert(open_after(e0.drop_last(), st) == Some(st));
    assert(open_after(e0, st) == Some(st1));
    if descend {
        if let NodeV::Existing { children, .. } = node {
            lemma_children_events_nest::<V>(s1, children, 0, st1);
        }
    }
    assert(open_after(inner, st1) == Some(st1));
    assert(e1.drop_last() =~= Seq::<WalkEvent>::empty());
    assert(e1.last() == WalkEvent::Exit(name, node));
    assert(open_after(e1.drop_last(), st1) == Some(st1));
    assert(st1.drop_last() =~= st);
}

proof fn lemma_children_events_nest<V: Visitor>(
    s: V::V,
    children: Seq<(Seq<char>, NodeV)>,
    i: int,
    st: Seq<(Seq<char>, NodeV)>,
)
    ensures
        open_after(children_events::<V>(s, children, i), st) == Some(st),
    decreases children, children.len() - i,
{
    if 0 <= i < children.len() {
        let a = walk_events::<V>(s, children[i].0, children[i].1);
        let s1 = walk_spec::<V>(s, children[i].0, children[i].1);
        let b = children_events::<V>(s1, children, i + 1);
        lemma_walk_events_nest::<V>(s, children[i].0, children[i].1, st);
        lemma_children_events_nest::<V>(s1, children, i + 1, st);
        lemma_events_concat::<V>(s, st, a, b);
    }
}

} // verus!
