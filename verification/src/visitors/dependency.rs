//! Extraction of the dependencies between nodes (clocks, power domains, ...).

use crate::dts::tree::{datas_view, node_prop_data, Node, NodeV};
use crate::strmap::StrMap;
use crate::text::{concat, join, str_eq, strings_view};
use crate::visitors::reg_extractor::pop_seq;
use crate::visitors::sorter::{data_refs, dep_prop_names, push_data_refs};
use crate::visitors::{full_path_of, lemma_walk_appends, lemma_walk_keeps, walk_spec, Visitor};
use vstd::prelude::*;

verus! {

#[derive(Debug, PartialEq, Eq, PartialOrd, Ord)]
pub struct DependencyInfo {
    pub child_path: String,
    pub parent_label: String,
}

/// The state of a `DependencyExtractor` as seen by specifications.
pub struct DependencyExtractorV {
    pub path: Seq<Seq<char>>,
    /// `(child path, parent label)` pairs in the order found.
    pub deps: Seq<(Seq<char>, Seq<char>)>,
    /// label -> full path of the node carrying it
    pub label_map: Map<Seq<char>, Seq<char>>,
}

pub struct DependencyExtractor {
    path_stack: Vec<String>,
    dependencies: Vec<DependencyInfo>,
    label_map: StrMap<String>,
}

/// The view of a dependency.
pub open spec fn dep_view(d: DependencyInfo) -> (Seq<char>, Seq<char>) {
    (d.child_path@, d.parent_label@)
}

/// The view of a label table.
pub open spec fn paths_view(m: Map<Seq<char>, String>) -> Map<Seq<char>, Seq<char>> {
    m.map_values(|v: String| v@)
}

impl View for DependencyExtractor {
    type V = DependencyExtractorV;

    closed spec fn view(&self) -> DependencyExtractorV {
        DependencyExtractorV {
            path: strings_view(self.path_stack@),
            deps: self.dependencies@.map_values(|d: DependencyInfo| dep_view(d)),
            label_map: paths_view(self.label_map@),
        }
    }
}

// ---------------------------------------------------------------------------
// Specifications
// ---------------------------------------------------------------------------

/// Appends `p` to a path under construction: a `/` component adds `/`, any
/// other is preceded by `/` unless the path already ends with one.
pub open spec fn path_step(path: Seq<char>, p: Seq<char>) -> Seq<char> {
    if p == seq!['/'] {
        path.push('/')
    } else if path.len() > 0 && path.last() == '/' {
        path + p
    } else {
        path.push('/') + p
    }
}

/// The path built from the components `stack[..n]`.
pub open spec fn path_of(stack: Seq<Seq<char>>, n: int) -> Seq<char>
    decreases n,
{
    if n <= 0 {
        Seq::empty()
    } else {
        path_step(path_of(stack, n - 1), stack[n - 1])
    }
}

/// The current path: `/` for an empty stack or an empty result.
pub open spec fn current_path_of(stack: Seq<Seq<char>>) -> Seq<char> {
    let p = path_of(stack, stack.len() as int);
    if stack.len() == 0 || p.len() == 0 {
        seq!['/']
    } else {
        p
    }
}

/// Each label of `labels` mapped to `path`.
pub open spec fn map_labels(m: Map<Seq<char>, Seq<char>>, labels: Seq<Seq<char>>, path: Seq<char>) -> Map<
    Seq<char>,
    Seq<char>,
>
    decreases labels.len(),
{
    if labels.len() == 0 {
        m
    } else {
        map_labels(m, labels.drop_last(), path).insert(labels.last(), path)
    }
}

/// The dependencies of `node` (at `path`) through the first `k` dependency
/// properties, in the order of `dep_prop_names`.
pub open spec fn node_dependencies(node: NodeV, path: Seq<char>, k: int) -> Seq<
    (Seq<char>, Seq<char>),
>
    decreases k,
{
    if k <= 0 {
        Seq::empty()
    } else {
        node_dependencies(node, path, k - 1) + match node.prop_data(dep_prop_names()[k - 1]) {
            Some(data) => data_refs(data).map_values(|r: Seq<char>| (path, r)),
            None => Seq::empty(),
        }
    }
}

/// Whether `a` sorts before `b`: lexicographic on characters.
pub open spec fn chars_before(a: Seq<char>, b: Seq<char>) -> bool
    decreases a.len(),
{
    if a.len() == 0 {
        b.len() > 0
    } else if b.len() == 0 {
        false
    } else if (a[0] as u32) != (b[0] as u32) {
        (a[0] as u32) < (b[0] as u32)
    } else {
        chars_before(a.skip(1), b.skip(1))
    }
}

/// Whether dependency `a` sorts before `b`: by child path, then by label.
pub open spec fn dep_before(a: (Seq<char>, Seq<char>), b: (Seq<char>, Seq<char>)) -> bool {
    chars_before(a.0, b.0) || (a.0 == b.0 && chars_before(a.1, b.1))
}

/// `sorted` with `x` inserted before its first element that `x` sorts before.
pub open spec fn insert_sorted(sorted: Seq<(Seq<char>, Seq<char>)>, x: (Seq<char>, Seq<char>)) -> Seq<
    (Seq<char>, Seq<char>),
>
    decreases sorted.len(),
{
    if sorted.len() == 0 {
        seq![x]
    } else if dep_before(x, sorted[0]) {
        seq![x] + sorted
    } else {
        seq![sorted[0]] + insert_sorted(sorted.skip(1), x)
    }
}

/// The dependencies in sorted order (insertion sort).
pub open spec fn sort_deps(s: Seq<(Seq<char>, Seq<char>)>) -> Seq<(Seq<char>, Seq<char>)>
    decreases s.len(),
{
    if s.len() == 0 {
        Seq::empty()
    } else {
        insert_sorted(sort_deps(s.drop_last()), s.last())
    }
}

/// The output lines `child -> target` for sorted dependencies: the target
/// is the path of the labelled node, or `label:` and the label when unknown.
pub open spec fn deps_text(deps: Seq<(Seq<char>, Seq<char>)>, lm: Map<Seq<char>, Seq<char>>) -> Seq<
    char,
>
    decreases deps.len(),
{
    if deps.len() == 0 {
        Seq::empty()
    } else {
        let d = deps.last();
        let target = if lm.contains_key(d.1) {
            lm[d.1]
        } else {
            seq!['l', 'a', 'b', 'e', 'l', ':'] + d.1
        };
        deps_text(deps.drop_last(), lm) + d.0 + seq![' ', '-', '>', ' '] + target + seq!['\n']
    }
}

// ---------------------------------------------------------------------------
// Implementation
// ---------------------------------------------------------------------------

fn chars_before_exec(a: &Vec<char>, b: &Vec<char>) -> (r: bool)
    ensures
        r == chars_before(a@, b@),
{
    let mut i: usize = 0;
    proof {
        assert(a@.skip(0) =~= a@);
        assert(b@.skip(0) =~= b@);
    }
    while i < a.len() && i < b.len()
        invariant
            i <= a.len(),
            i <= b.len(),
            chars_before(a@, b@) == chars_before(a@.skip(i as int), b@.skip(i as int)),
        decreases a.len() - i,
    {
        proof {
            assert(a@.skip(i as int)[0] == a@[i as int]);
            assert(b@.skip(i as int)[0] == b@[i as int]);
            assert(a@.skip(i as int).skip(1) =~= a@.skip(i + 1));
            assert(b@.skip(i as int).skip(1) =~= b@.skip(i + 1));
        }
        if (a[i] as u32) != (b[i] as u32) {
            return (a[i] as u32) < (b[i] as u32);
        }
        i = i + 1;
    }
    i == a.len() && i < b.len()
}

impl DependencyExtractor {
    pub fn new() -> (r: Self)
        ensures
            r@ == (DependencyExtractorV {
                path: Seq::empty(),
                deps: Seq::empty(),
                label_map: Map::empty(),
            }),
    {
        let r = Self { path_stack: Vec::new(), dependencies: Vec::new(), label_map: StrMap::new() };
        proof {
            assert(r@.path =~= Seq::<Seq<char>>::empty());
            assert(r@.deps =~= Seq::<(Seq<char>, Seq<char>)>::empty());
            assert(r@.label_map =~= Map::<Seq<char>, Seq<char>>::empty());
        }
        r
    }

    /// The dependencies sorted by child path then label, one line each:
    /// `child_path -> parent_path`, or `-> label:<label>` for an unknown label.
    pub fn output(&self) -> (r: String)
        ensures
            r@ == deps_text(sort_deps(self@.deps), self@.label_map),
    {
        let ghost dv = self@.deps;
        // insertion sort on indices
        let mut order: Vec<usize> = Vec::new();
        let ghost view_of = |o: Seq<usize>| o.map_values(|k: usize| dv[k as int]);
        let mut i: usize = 0;
        while i < self.dependencies.len()
            invariant
                i <= self.dependencies.len(),
                dv == self@.deps,
                dv.len() == self.dependencies.len(),
                forall|k: int| 0 <= k < order.len() ==> #[trigger] order@[k] < i,
                order@.map_values(|k: usize| dv[k as int]) == sort_deps(dv.subrange(0, i as int)),
            decreases self.dependencies.len() - i,
        {
            let ci = crate::text::str_chars(self.dependencies[i].child_path.as_str());
            let li = crate::text::str_chars(self.dependencies[i].parent_label.as_str());
            let ghost x = dv[i as int];
            proof {
                assert(x == dep_view(self.dependencies@[i as int]));
            }
            // find the first position whose element `x` sorts before
            let mut pos: usize = 0;
            let ghost ov = order@.map_values(|k: usize| dv[k as int]);
            proof {
                assert(ov.skip(0) =~= ov);
                assert(ov.subrange(0, 0) + insert_sorted(ov.skip(0), x) =~= insert_sorted(ov, x));
            }
            loop
                invariant
                    pos <= order.len(),
                    dv == self@.deps,
                    dv.len() == self.dependencies.len(),
                    i < self.dependencies.len(),
                    x == dv[i as int],
                    ci@ == x.0,
                    li@ == x.1,
                    forall|k: int| 0 <= k < order.len() ==> #[trigger] order@[k] < i,
                    ov == order@.map_values(|k: usize| dv[k as int]),
                    insert_sorted(ov, x) == ov.subrange(0, pos as int) + insert_sorted(
                        ov.skip(pos as int),
                        x,
                    ),
                ensures
                    pos == order.len() || dep_before(x, ov[pos as int]),
                decreases order.len() - pos,
            {
                if pos == order.len() {
                    break ;
                }
                let k = order[pos];
                let ck = crate::text::str_chars(self.dependencies[k].child_path.as_str());
                let lk = crate::text::str_chars(self.dependencies[k].parent_label.as_str());
                let b1 = chars_before_exec(&ci, &ck);
                let before = if b1 {
                    true
                } else {
                    let same = ci.len() == ck.len() && !chars_before_exec(&ck, &ci);
                    same && chars_before_exec(&li, &lk)
                };
                proof {
                    assert(ov[pos as int] == dep_view(self.dependencies@[k as int]));
                    assert(ov.skip(pos as int)[0] == ov[pos as int]);
                    lemma_chars_eq(ci@, ck@);
                    lemma_chars_irrefl(ci@);
                }
                if before {
                    break ;
                }
                proof {
                    assert(ov.skip(pos as int).skip(1) =~= ov.skip(pos + 1));
                    assert(ov.subrange(0, pos + 1) =~= ov.subrange(0, pos as int).push(ov[pos as int]));
                    assert(ov.subrange(0, pos as int) + (seq![ov[pos as int]] + insert_sorted(
                        ov.skip(pos + 1),
                        x,
                    )) =~= ov.subrange(0, pos + 1) + insert_sorted(ov.skip(pos + 1), x));
                }
                pos = pos + 1;
            }
            let ghost old_order = order@;
            order.insert(pos, i);
            proof {
                if pos < old_order.len() {
                    assert(ov.skip(pos as int)[0] == ov[pos as int]);
                }
                assert(insert_sorted(ov.skip(pos as int), x) == seq![x] + ov.skip(pos as int));
                assert(order@.map_values(|k: usize| dv[k as int]) =~= ov.subrange(0, pos as int)
                    + (seq![x] + ov.skip(pos as int)));
                assert(dv.subrange(0, i + 1).drop_last() =~= dv.subrange(0, i as int));
                assert(dv.subrange(0, i + 1).last() == x);
                assert forall|q: int| 0 <= q < order.len() implies #[trigger] order@[q] < i + 1 by {
                    if q < pos {
                        assert(order@[q] == old_order[q]);
                    } else if q > pos {
                        assert(order@[q] == old_order[q - 1]);
                    }
                }
            }
            i = i + 1;
        }
        proof {
            assert(dv.subrange(0, self.dependencies.len() as int) =~= dv);
        }
        let ghost sorted = sort_deps(dv);
        let ghost lm = self@.label_map;
        proof {
            reveal_strlit(" -> ");
            reveal_strlit("label:");
            reveal_strlit("\n");
        }
        let mut output = String::new();
        let mut j: usize = 0;
        while j < order.len()
            invariant
                j <= order.len(),
                dv == self@.deps,
                dv.len() == self.dependencies.len(),
                lm == self@.label_map,
                forall|k: int| 0 <= k < order.len() ==> #[trigger] order@[k] < dv.len(),
                order@.map_values(|k: usize| dv[k as int]) == sorted,
                output@ == deps_text(sorted.subrange(0, j as int), lm),
                " -> "@ == seq![' ', '-', '>', ' '],
                "label:"@ == seq!['l', 'a', 'b', 'e', 'l', ':'],
                "\n"@ == seq!['\n'],
            decreases order.len() - j,
        {
            let dep = &self.dependencies[order[j]];
            proof {
                assert(sorted[j as int] == dep_view(*dep));
            }
            let target = match self.label_map.get(dep.parent_label.as_str()) {
                Some(p) => p.clone(),
                None => concat("label:", dep.parent_label.as_str()),
            };
            output.append(dep.child_path.as_str());
            output.append(" -> ");
            output.append(target.as_str());
            output.append("\n");
            proof {
                assert(sorted.subrange(0, j + 1).drop_last() =~= sorted.subrange(0, j as int));
                assert(sorted.subrange(0, j + 1).last() == sorted[j as int]);
                assert(output@ =~= deps_text(sorted.subrange(0, j + 1), lm));
            }
            j = j + 1;
        }
        proof {
            assert(sorted.subrange(0, order.len() as int) =~= sorted);
        }
        output
    }

    fn get_current_path(&self) -> (r: String)
        ensures
            r@ == current_path_of(self@.path),
    {
        proof {
            reveal_strlit("/");
            assert("/"@ =~= seq!['/']);
        }
        if self.path_stack.len() == 0 {
            return String::from_str("/");
        }
        let ghost st = self@.path;
        let mut path: Vec<char> = Vec::new();
        let mut i: usize = 0;
        while i < self.path_stack.len()
            invariant
                i <= self.path_stack.len(),
                st == self@.path,
                st.len() == self.path_stack.len(),
                "/"@ == seq!['/'],
                path@ == path_of(st, i as int),
            decreases self.path_stack.len() - i,
        {
            let p = &self.path_stack[i];
            proof {
                assert(st[i as int] == p@);
            }
            if str_eq(p.as_str(), "/") {
                path.push('/');
            } else {
                if !(path.len() > 0 && path[path.len() - 1] == '/') {
                    path.push('/');
                }
                let pc = crate::text::str_chars(p.as_str());
                let mut k: usize = 0;
                let ghost base = path@;
                while k < pc.len()
                    invariant
                        k <= pc.len(),
                        path@ == base + pc@.subrange(0, k as int),
                    decreases pc.len() - k,
                {
                    path.push(pc[k]);
                    proof {
                        assert(path@ =~= base + pc@.subrange(0, k + 1));
                    }
                    k = k + 1;
                }
                proof {
                    assert(pc@.subrange(0, pc.len() as int) =~= pc@);
                }
            }
            proof {
                assert(path@ =~= path_of(st, i + 1));
            }
            i = i + 1;
        }
        if path.len() == 0 {
            String::from_str("/")
        } else {
            crate::text::string_from_chars(path.as_slice())
        }
    }

    // Records the dependencies of `node` (at `current_path`).
    fn check_dependencies(&mut self, node: &Node, current_path: &str)
        ensures
            final(self)@ == (DependencyExtractorV {
                deps: old(self)@.deps + node_dependencies(node@, current_path@, 9),
                ..old(self)@
            }),
    {
        let ghost s = self@;
        let names: [&str; 9] = [
            "clocks",
            "interrupt-parent",
            "power-domains",
            "phys",
            "resets",
            "dmas",
            "iommus",
            "mboxes",
            "interconnects",
        ];
        proof {
            assert(names@.map_values(|x: &str| x@) =~= dep_prop_names());
        }
        let mut k: usize = 0;
        while k < 9
            invariant
                k <= 9,
                names@.map_values(|x: &str| x@) == dep_prop_names(),
                self@ == (DependencyExtractorV {
                    deps: s.deps + node_dependencies(node@, current_path@, k as int),
                    ..s
                }),
            decreases 9 - k,
        {
            proof {
                assert(names@[k as int]@ == dep_prop_names()[k as int]);
            }
            if let Some(data) = node_prop_data(node, names[k]) {
                let mut refs: Vec<String> = Vec::new();
                push_data_refs(data, &mut refs);
                proof {
                    assert(strings_view(refs@) =~= data_refs(datas_view(data@)));
                }
                let ghost base = self@.deps;
                let mut j: usize = 0;
                while j < refs.len()
                    invariant
                        j <= refs.len(),
                        self@ == (DependencyExtractorV { deps: self@.deps, ..s }),
                        self@.deps == base + strings_view(refs@).subrange(0, j as int).map_values(
                            |r: Seq<char>| (current_path@, r),
                        ),
                    decreases refs.len() - j,
                {
                    let d = DependencyInfo {
                        child_path: String::from_str(current_path),
                        parent_label: refs[j].clone(),
                    };
                    let ghost gd = d;
                    let ghost old_deps = self.dependencies@;
                    self.dependencies.push(d);
                    proof {
                        assert(self.dependencies@.map_values(|d: DependencyInfo| dep_view(d))
                            =~= old_deps.map_values(|d: DependencyInfo| dep_view(d)).push(
                            dep_view(gd),
                        ));
                        assert(strings_view(refs@).subrange(0, j + 1) =~= strings_view(
                            refs@,
                        ).subrange(0, j as int).push(refs@[j as int]@));
                        assert(self@.deps =~= base + strings_view(refs@).subrange(
                            0,
                            j + 1,
                        ).map_values(|r: Seq<char>| (current_path@, r)));
                    }
                    j = j + 1;
                }
                proof {
                    assert(strings_view(refs@).subrange(0, refs.len() as int) =~= strings_view(
                        refs@,
                    ));
                    assert(self@.deps =~= s.deps + node_dependencies(
                        node@,
                        current_path@,
                        k + 1,
                    ));
                }
            } else {
                proof {
                    assert(self@.deps =~= s.deps + node_dependencies(
                        node@,
                        current_path@,
                        k + 1,
                    ));
                }
            }
            k = k + 1;
        }
    }
}

impl Visitor for DependencyExtractor {
    open spec fn ready(s: DependencyExtractorV) -> bool {
        true
    }

    proof fn lemma_ready_kept(s: DependencyExtractorV, name: Seq<char>, node: NodeV) {
    }

    open spec fn spec_enter(s: DependencyExtractorV, name: Seq<char>, node: NodeV) -> (
        DependencyExtractorV,
        bool,
    ) {
        let node_name = if name.len() == 0 {
            seq!['/']
        } else {
            name
        };
        let path = s.path.push(node_name);
        let cp = current_path_of(path);
        (
            DependencyExtractorV {
                path,
                deps: s.deps + node_dependencies(node, cp, 9),
                label_map: map_labels(s.label_map, node.labels(), cp),
            },
            true,
        )
    }

    open spec fn spec_exit(s: DependencyExtractorV, name: Seq<char>, node: NodeV) -> DependencyExtractorV {
        DependencyExtractorV { path: pop_seq(s.path), ..s }
    }

    fn enter_node(&mut self, name: &str, node: &Node) -> (r: bool) {
        let ghost s = self@;
        proof {
            reveal_strlit("/");
            assert("/"@ =~= seq!['/']);
        }
        // The root is named "" or "/".
        let node_name = if name.is_empty() {
            "/"
        } else {
            name
        };
        self.path_stack.push(String::from_str(node_name));
        proof {
            assert(strings_view(self.path_stack@) =~= s.path.push(node_name@));
        }
        let current_path = self.get_current_path();
        let ghost s1 = self@;
        // Record label -> path.
        if let Node::Existing { labels, .. } = node {
            let mut i: usize = 0;
            while i < labels.len()
                invariant
                    i <= labels.len(),
                    node@.labels() == strings_view(labels@),
                    self@ == (DependencyExtractorV {
                        label_map: map_labels(
                            s1.label_map,
                            strings_view(labels@).subrange(0, i as int),
                            current_path@,
                        ),
                        ..s1
                    }),
                decreases labels.len() - i,
            {
                let ghost before = self.label_map@;
                let v = current_path.clone();
                let ghost gv = v;
                self.label_map.insert(labels[i].clone(), v);
                proof {
                    assert(paths_view(before.insert(labels@[i as int]@, gv)) =~= paths_view(
                        before,
                    ).insert(labels@[i as int]@, gv@));
                    assert(strings_view(labels@).subrange(0, i + 1).drop_last() =~= strings_view(
                        labels@,
                    ).subrange(0, i as int));
                    assert(strings_view(labels@).subrange(0, i + 1).last() == labels@[i as int]@);
                }
                i = i + 1;
            }
            proof {
                assert(strings_view(labels@).subrange(0, labels.len() as int) =~= strings_view(
                    labels@,
                ));
            }
        }
        // Record the dependencies.
        self.check_dependencies(node, current_path.as_str());
        true
    }

    fn exit_node(&mut self, _name: &str, _node: &Node) {
        let ghost s = self@;
        self.path_stack.pop();
        proof {
            if s.path.len() > 0 {
                assert(strings_view(self.path_stack@) =~= s.path.drop_last());
            }
        }
    }
}

proof fn lemma_chars_irrefl(a: Seq<char>)
    ensures
        !chars_before(a, a),
    decreases a.len(),
{
    if a.len() > 0 {
        lemma_chars_irrefl(a.skip(1));
    }
}

proof fn lemma_chars_eq(a: Seq<char>, b: Seq<char>)
    ensures
        (a.len() == b.len() && !chars_before(b, a) && !chars_before(a, b)) ==> a == b,
    decreases a.len(),
{
    if a.len() > 0 && b.len() > 0 && a.len() == b.len() {
        lemma_chars_eq(a.skip(1), b.skip(1));
        if !chars_before(b, a) && !chars_before(a, b) {
            assert((a[0] as u32) == (b[0] as u32));
            vstd::utf8::char_u32_cast(a[0], a[0] as u32);
            vstd::utf8::char_u32_cast(b[0], b[0] as u32);
            assert(a[0] == b[0]);
            assert(a =~= b) by {
                assert forall|i: int| 0 <= i < a.len() implies a[i] == b[i] by {
                    if i > 0 {
                        assert(a.skip(1)[i - 1] == a[i]);
                        assert(b.skip(1)[i - 1] == b[i]);
                    }
                }
            }
        }
    } else if a.len() == 0 && b.len() == 0 {
        assert(a =~= b);
    }
}

/// Walking a subtree leaves the path as it was.
pub proof fn lemma_dependency_walk_restores(s: DependencyExtractorV, name: Seq<char>, node: NodeV)
    ensures
        walk_spec::<DependencyExtractor>(s, name, node).path == s.path,
{
    let p = |v: DependencyExtractorV| (v.path,);
    assert forall|t: DependencyExtractorV, u: DependencyExtractorV, nm: Seq<char>, nd: NodeV|
        #![trigger DependencyExtractor::spec_enter(t, nm, nd), DependencyExtractor::spec_exit(u, nm, nd)]
        p(u) == p(DependencyExtractor::spec_enter(t, nm, nd).0) implies p(DependencyExtractor::spec_exit(u, nm, nd)) == p(t) by {
        let e = DependencyExtractor::spec_enter(t, nm, nd).0;
        assert(e.path.drop_last() =~= t.path);
    }
    lemma_walk_keeps::<DependencyExtractor, (Seq<Seq<char>>,)>(p, s, name, node);
}

/// Walking a subtree only appends to the dependencies found so far.
pub proof fn lemma_dependency_walk_appends(s: DependencyExtractorV, name: Seq<char>, node: NodeV)
    ensures
        s.deps.is_prefix_of(walk_spec::<DependencyExtractor>(s, name, node).deps),
{
    let q = |v: DependencyExtractorV| v.deps;
    assert forall|t: DependencyExtractorV, nm: Seq<char>, nd: NodeV|
        #[trigger] q(t).is_prefix_of(q(DependencyExtractor::spec_enter(t, nm, nd).0)) by {
        let e = DependencyExtractor::spec_enter(t, nm, nd).0;
        assert(t.deps =~= e.deps.subrange(0, t.deps.len() as int));
    }
    assert forall|u: DependencyExtractorV, nm: Seq<char>, nd: NodeV|
        #[trigger] q(u).is_prefix_of(q(DependencyExtractor::spec_exit(u, nm, nd))) by {
        let e = DependencyExtractor::spec_exit(u, nm, nd);
        assert(u.deps =~= e.deps.subrange(0, u.deps.len() as int));
    }
    lemma_walk_appends::<DependencyExtractor, (Seq<char>, Seq<char>)>(q, s, name, node);
}

// ---------------------------------------------------------------------------
// The order of the output
// ---------------------------------------------------------------------------

/// No dependency of `r` sorts before one that precedes it.
pub open spec fn deps_sorted(r: Seq<(Seq<char>, Seq<char>)>) -> bool {
    forall|i: int, j: int| 0 <= i < j < r.len() ==> !dep_before(r[j], r[i])
}

proof fn lemma_chars_trans(a: Seq<char>, b: Seq<char>, c: Seq<char>)
    requires
        chars_before(a, b),
        chars_before(b, c),
    ensures
        chars_before(a, c),
    decreases a.len(),
{
    if a.len() > 0 && b.len() > 0 && c.len() > 0 {
        if (a[0] as u32) == (b[0] as u32) && (b[0] as u32) == (c[0] as u32) {
            lemma_chars_trans(a.skip(1), b.skip(1), c.skip(1));
        }
    }
}

proof fn lemma_chars_total(a: Seq<char>, b: Seq<char>)
    ensures
        a != b ==> chars_before(a, b) || chars_before(b, a),
    decreases a.len(),
{
    if a.len() > 0 && b.len() > 0 {
        lemma_chars_total(a.skip(1), b.skip(1));
        if (a[0] as u32) == (b[0] as u32) && a.skip(1) == b.skip(1) {
            vstd::utf8::char_u32_cast(a[0], a[0] as u32);
            vstd::utf8::char_u32_cast(b[0], b[0] as u32);
            assert(a[0] == b[0]);
            assert(a.skip(1).len() == b.skip(1).len());
            assert(a.len() == b.len());
            assert(a =~= b) by {
                assert forall|i: int| 0 <= i < a.len() implies a[i] == b[i] by {
                    if i > 0 {
                        assert(a.skip(1)[i - 1] == a[i]);
                        assert(b.skip(1)[i - 1] == b[i]);
                    }
                }
            }
        }
    } else if a.len() == 0 && b.len() == 0 {
        assert(a =~= b);
    }
}

proof fn lemma_dep_order(a: (Seq<char>, Seq<char>), b: (Seq<char>, Seq<char>), c: (Seq<char>, Seq<char>))
    ensures
        dep_before(a, b) && dep_before(b, c) ==> dep_before(a, c),
        dep_before(a, b) ==> !dep_before(b, a),
        a != b ==> dep_before(a, b) || dep_before(b, a),
{
    lemma_chars_irrefl(a.0);
    lemma_chars_irrefl(a.1);
    lemma_chars_total(a.0, b.0);
    lemma_chars_total(a.1, b.1);
    if chars_before(a.0, b.0) && chars_before(b.0, a.0) {
        lemma_chars_trans(a.0, b.0, a.0);
    }
    if chars_before(a.1, b.1) && chars_before(b.1, a.1) {
        lemma_chars_trans(a.1, b.1, a.1);
    }
    if dep_before(a, b) && dep_before(b, c) {
        if chars_before(a.0, b.0) && chars_before(b.0, c.0) {
            lemma_chars_trans(a.0, b.0, c.0);
        }
        if a.0 == b.0 && b.0 == c.0 && chars_before(a.1, b.1) && chars_before(b.1, c.1) {
            lemma_chars_trans(a.1, b.1, c.1);
        }
    }
}

proof fn lemma_insert_sorted(sorted: Seq<(Seq<char>, Seq<char>)>, x: (Seq<char>, Seq<char>))
    requires
        deps_sorted(sorted),
    ensures
        deps_sorted(insert_sorted(sorted, x)),
        exists|k: int| 0 <= k <= sorted.len() && insert_sorted(sorted, x) == sorted.insert(k, x),
    decreases sorted.len(),
{
    if sorted.len() == 0 {
        assert(insert_sorted(sorted, x) == sorted.insert(0, x));
    } else if dep_before(x, sorted[0]) {
        let r = insert_sorted(sorted, x);
        assert(r =~= sorted.insert(0, x));
        assert forall|i: int, j: int| 0 <= i < j < r.len() implies !dep_before(r[j], r[i]) by {
            if i == 0 {
                let y = sorted[j - 1];
                lemma_dep_order(x, sorted[0], y);
                lemma_dep_order(sorted[0], y, x);
                lemma_dep_order(y, sorted[0], x);
                if j - 1 > 0 {
                    assert(!dep_before(y, sorted[0]));
                }
                lemma_dep_order(x, y, x);
            } else {
                assert(r[i] == sorted[i - 1] && r[j] == sorted[j - 1]);
            }
        }
    } else {
        let rest = sorted.skip(1);
        assert forall|i: int, j: int| 0 <= i < j < rest.len() implies !dep_before(rest[j], rest[i]) by {
            assert(rest[i] == sorted[i + 1] && rest[j] == sorted[j + 1]);
        }
        lemma_insert_sorted(rest, x);
        let t = insert_sorted(rest, x);
        let k = choose|k: int| 0 <= k <= rest.len() && insert_sorted(rest, x) == rest.insert(k, x);
        let r = insert_sorted(sorted, x);
        assert(r =~= sorted.insert(k + 1, x));
        assert forall|i: int, j: int| 0 <= i < j < r.len() implies !dep_before(r[j], r[i]) by {
            if i == 0 {
                if j == k + 1 {
                    assert(r[j] == x);
                } else if j < k + 1 {
                    assert(r[j] == sorted[j]);
                } else {
                    assert(r[j] == sorted[j - 1]);
                }
            } else {
                assert(r[i] == t[i - 1] && r[j] == t[j - 1]);
            }
        }
    }
}

/// The output lists the dependencies found, each as often as it was found,
/// ordered by child path and then by label.
pub proof fn lemma_sort_deps(s: Seq<(Seq<char>, Seq<char>)>)
    ensures
        deps_sorted(sort_deps(s)),
        sort_deps(s).to_multiset() == s.to_multiset(),
    decreases s.len(),
{
    broadcast use vstd::seq_lib::to_multiset_insert, vstd::seq_lib::to_multiset_build;

    if s.len() == 0 {
        assert(sort_deps(s).to_multiset() =~= s.to_multiset()) by {
            assert(s =~= Seq::<(Seq<char>, Seq<char>)>::empty());
        }
    } else {
        let init = s.drop_last();
        lemma_sort_deps(init);
        lemma_insert_sorted(sort_deps(init), s.last());
        let k = choose|k: int|
            0 <= k <= sort_deps(init).len() && insert_sorted(sort_deps(init), s.last()) == sort_deps(
                init,
            ).insert(k, s.last());
        assert(sort_deps(init).insert(k, s.last()).to_multiset() == sort_deps(
            init,
        ).to_multiset().insert(s.last()));
        assert(init.push(s.last()) =~= s);
        assert(init.push(s.last()).to_multiset() =~= init.to_multiset().insert(s.last()));
    }
}

// ---------------------------------------------------------------------------
// Paths
// ---------------------------------------------------------------------------

/// A stack of names as the walker makes it: the root's name `/` first, then
/// names that are not empty and do not end in `/`.
pub open spec fn plain_stack(stack: Seq<Seq<char>>) -> bool {
    &&& stack.len() >= 1
    &&& stack[0] == seq!['/']
    &&& forall|i: int| 1 <= i < stack.len() ==> #[trigger] stack[i].len() > 0 && stack[i].last() != '/'
}

proof fn lemma_join_last(parts: Seq<Seq<char>>, sep: Seq<char>)
    requires
        parts.len() > 0,
        parts.last().len() > 0,
    ensures
        join(parts, sep).len() > 0,
        join(parts, sep).last() == parts.last().last(),
{
}

proof fn lemma_path_of_full(stack: Seq<Seq<char>>, n: int)
    requires
        plain_stack(stack),
        1 <= n <= stack.len(),
    ensures
        path_of(stack, n) == full_path_of(stack.subrange(0, n)),
    decreases n,
{
    let t = stack.subrange(0, n);
    if n == 1 {
        assert(path_of(stack, 0) == Seq::<char>::empty());
        assert(t.skip(1) =~= Seq::<Seq<char>>::empty());
        assert(seq!['/'] + join(t.skip(1), seq!['/']) =~= seq!['/']);
        assert(Seq::<char>::empty().push('/') =~= seq!['/']);
    } else {
        lemma_path_of_full(stack, n - 1);
        let t0 = stack.subrange(0, n - 1);
        let c = stack[n - 1];
        assert(c.len() > 0 && c.last() != '/');
        assert(c != seq!['/']);
        let p = path_of(stack, n - 1);
        assert(t.skip(1) =~= t0.skip(1).push(c));
        if n == 2 {
            assert(t0.skip(1) =~= Seq::<Seq<char>>::empty());
            assert(p =~= seq!['/']);
            assert(t.skip(1) =~= seq![c]);
            assert(p + c =~= seq!['/'] + join(t.skip(1), seq!['/']));
        } else {
            let parts = t0.skip(1);
            assert(parts.last() == stack[n - 2]);
            lemma_join_last(parts, seq!['/']);
            assert(p.last() == stack[n - 2].last());
            assert(t.skip(1).drop_last() =~= parts);
            assert(join(t.skip(1), seq!['/']) == join(parts, seq!['/']) + seq!['/'] + c);
            assert(p.push('/') + c =~= seq!['/'] + join(t.skip(1), seq!['/']));
        }
    }
}

/// The path recorded for a node, both as the path of its dependencies and
/// as the target of its labels, is its full path: `/`, then the names below
/// the root joined by `/`.
pub proof fn lemma_current_path_full(stack: Seq<Seq<char>>)
    requires
        plain_stack(stack),
    ensures
        current_path_of(stack) == full_path_of(stack),
{
    lemma_path_of_full(stack, stack.len() as int);
    assert(stack.subrange(0, stack.len() as int) =~= stack);
}

} // verus!
