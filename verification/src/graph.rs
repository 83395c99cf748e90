//! The shape of an autodiff tape: every node lists the indices of the nodes
//! it was computed from, and a node only refers to nodes recorded before it.
//! The backward pass visits the nodes that a root depends on in a
//! topological order, computed here by a depth-first search.
use vstd::prelude::*;

verus! {

/// Every child index of node `i` is smaller than `i`.
pub open spec fn well_formed(g: Seq<Seq<usize>>) -> bool {
    forall|i: int, k: int| 0 <= i < g.len() && 0 <= k < g[i].len() ==> #[trigger] g[i][k] < i
}

/// `x` is `v` or a node that `v` depends on, through one or more child
/// links.
pub open spec fn reaches(g: Seq<Seq<usize>>, v: int, x: int) -> bool
    decreases v, g[v].len() + 1,
{
    x == v || reaches_via(g, v, g[v].len() as int, x)
}

/// `x` is reachable from one of the first `k` children of `v`.
pub open spec fn reaches_via(g: Seq<Seq<usize>>, v: int, k: int, x: int) -> bool
    decreases v, k,
{
    if k <= 0 {
        false
    } else {
        (0 <= g[v][k - 1] < v && reaches(g, g[v][k - 1] as int, x)) || reaches_via(g, v, k - 1, x)
    }
}

/// The nodes reachable from the first `k` children of `v`.
pub open spec fn via_set(g: Seq<Seq<usize>>, v: int, k: int) -> Set<int> {
    Set::new(|x: int| reaches_via(g, v, k, x))
}

/// The depth-first postorder from `v`, skipping the nodes in `seen`: unless
/// `v` was seen, the orders of its children in turn (each skipping what the
/// earlier ones reached), then `v`.
pub open spec fn dfs_order(g: Seq<Seq<usize>>, seen: Set<int>, v: int) -> Seq<usize>
    decreases v, g[v].len() + 1,
{
    if seen.contains(v) {
        Seq::empty()
    } else {
        dfs_children(g, seen.insert(v), v, g[v].len() as int).push(v as usize)
    }
}

/// The depth-first postorders of the first `k` children of `v`, in order,
/// each skipping `seen` and what the children before it reached.
pub open spec fn dfs_children(g: Seq<Seq<usize>>, seen: Set<int>, v: int, k: int) -> Seq<usize>
    decreases v, k,
{
    if k <= 0 {
        Seq::empty()
    } else {
        let c = g[v][k - 1];
        dfs_children(g, seen, v, k - 1) + (if 0 <= c < v {
            dfs_order(g, seen.union(via_set(g, v, k - 1)), c as int)
        } else {
            Seq::empty()
        })
    }
}

/// The nodes marked in `visited`.
pub open spec fn marked(visited: Seq<bool>) -> Set<int> {
    Set::new(|x: int| 0 <= x < visited.len() && visited[x])
}

/// `t` lists distinct nodes of `g` in a topological order: every child of
/// a listed node is listed, and never after that node.
pub open spec fn topological(g: Seq<Seq<usize>>, t: Seq<usize>) -> bool {
    &&& t.no_duplicates()
    &&& forall|i: int| 0 <= i < t.len() ==> #[trigger] t[i] < g.len()
    &&& forall|i: int, k: int|
        0 <= i < t.len() && 0 <= k < g[t[i] as int].len() ==> t.contains(
            #[trigger] g[t[i] as int][k],
        )
    &&& forall|i: int, j: int, k: int|
        0 <= i < j < t.len() && 0 <= k < g[t[i] as int].len() ==> #[trigger] g[t[i] as int][k]
            != #[trigger] t[j]
}

/// Only `v` itself and nodes recorded before it are reachable from `v`.
pub proof fn lemma_reaches_below(g: Seq<Seq<usize>>, v: int, x: int)
    requires
        well_formed(g),
        0 <= v < g.len(),
        reaches(g, v, x),
    ensures
        0 <= x <= v,
    decreases v, g[v].len() + 1,
{
    if x != v {
        lemma_via_below(g, v, g[v].len() as int, x);
    }
}

/// What the first `k` children of `v` reach lies below `v`.
pub proof fn lemma_via_below(g: Seq<Seq<usize>>, v: int, k: int, x: int)
    requires
        well_formed(g),
        0 <= v < g.len(),
        0 <= k <= g[v].len(),
        reaches_via(g, v, k, x),
    ensures
        0 <= x < v,
    decreases v, k,
{
    if 0 <= g[v][k - 1] < v && reaches(g, g[v][k - 1] as int, x) {
        lemma_reaches_below(g, g[v][k - 1] as int, x);
    } else {
        lemma_via_below(g, v, k - 1, x);
    }
}

/// A list that contains every child of each of its nodes contains
/// everything reachable from any of its nodes.
pub proof fn lemma_reaches_listed(g: Seq<Seq<usize>>, t: Seq<usize>, v: int, x: int)
    requires
        well_formed(g),
        g.len() <= usize::MAX,
        topological(g, t),
        0 <= v < g.len(),
        t.contains(v as usize),
        reaches(g, v, x),
    ensures
        t.contains(x as usize),
    decreases v, g[v].len() + 1,
{
    if x != v {
        lemma_via_listed(g, t, v, g[v].len() as int, x);
    }
}

/// Everything reachable from the first `k` children of a listed node is
/// listed.
pub proof fn lemma_via_listed(g: Seq<Seq<usize>>, t: Seq<usize>, v: int, k: int, x: int)
    requires
        well_formed(g),
        g.len() <= usize::MAX,
        topological(g, t),
        0 <= v < g.len(),
        0 <= k <= g[v].len(),
        t.contains(v as usize),
        reaches_via(g, v, k, x),
    ensures
        t.contains(x as usize),
    decreases v, k,
{
    if 0 <= g[v][k - 1] < v && reaches(g, g[v][k - 1] as int, x) {
        let i = choose|i: int| 0 <= i < t.len() && t[i] == v as usize;
        assert(t[i] as int == v);
        assert(0 <= k - 1 < g[t[i] as int].len());
        assert(t.contains(g[t[i] as int][k - 1]));
        lemma_reaches_listed(g, t, g[v][k - 1] as int, x);
    } else {
        lemma_via_listed(g, t, v, k - 1, x);
    }
}

/// Each of the first `k` children of `v` is reached through them.
proof fn lemma_child_reached(g: Seq<Seq<usize>>, v: int, k: int, j: int)
    requires
        well_formed(g),
        0 <= v < g.len(),
        0 <= j < k <= g[v].len(),
    ensures
        reaches_via(g, v, k, g[v][j] as int),
    decreases k,
{
    if j < k - 1 {
        lemma_child_reached(g, v, k - 1, j);
    } else {
        assert(reaches(g, g[v][j] as int, g[v][j] as int));
    }
}

/// Depth-first search from `v`: marks `v` and everything it depends on as
/// visited, and appends each newly reached node after all of its children.
/// Nodes marked but not yet listed are the ancestors on the search path,
/// which all lie above `v`.
fn build_topo(nodes: &Vec<Vec<usize>>, visited: &mut Vec<bool>, topo: &mut Vec<usize>, v: usize)
    requires
        well_formed(nodes.deep_view()),
        nodes@.len() <= usize::MAX,
        v < nodes@.len(),
        old(visited)@.len() == nodes@.len(),
        topological(nodes.deep_view(), old(topo)@),
        forall|i: int| 0 <= i < old(topo)@.len() ==> old(visited)@[#[trigger] old(topo)@[i] as int],
        forall|x: int| 0 <= x <= v && #[trigger] old(visited)@[x] ==> old(topo)@.contains(x as usize),
    ensures
        final(visited)@.len() == old(visited)@.len(),
        forall|x: int|
            0 <= x < nodes@.len() ==> #[trigger] final(visited)@[x] == (old(visited)@[x] || reaches(
                nodes.deep_view(),
                v as int,
                x,
            )),
        topological(nodes.deep_view(), final(topo)@),
        forall|i: int| 0 <= i < final(topo)@.len() ==> final(visited)@[#[trigger] final(topo)@[i] as int],
        final(topo)@.len() >= old(topo)@.len(),
        forall|i: int| 0 <= i < old(topo)@.len() ==> #[trigger] final(topo)@[i] == old(topo)@[i],
        forall|x: usize|
            #[trigger] final(topo)@.contains(x) == (old(topo)@.contains(x) || reaches(
                nodes.deep_view(),
                v as int,
                x as int,
            )),
        !old(visited)@[v as int] ==> final(topo)@.len() > 0 && final(topo)@.last() == v,
        final(topo)@ == old(topo)@ + dfs_order(nodes.deep_view(), marked(old(visited)@), v as int),
    decreases v,
{
    let ghost g = nodes.deep_view();
    if visited[v] {
        proof {
            assert forall|x: int| 0 <= x < nodes@.len() && reaches(g, v as int, x) implies visited@[x]
                && topo@.contains(x as usize) by {
                lemma_reaches_listed(g, topo@, v as int, x);
                let i = choose|i: int| 0 <= i < topo@.len() && topo@[i] == x as usize;
                assert(visited@[topo@[i] as int]);
            }
            assert forall|x: usize| reaches(g, v as int, x as int) implies topo@.contains(x) by {
                lemma_reaches_listed(g, topo@, v as int, x as int);
            }
        }
        assert(marked(visited@).contains(v as int));
        assert(topo@ =~= topo@ + dfs_order(g, marked(visited@), v as int));
        return ;
    }
    let ghost t0 = topo@;
    let ghost vis0 = visited@;
    let ghost seen1 = marked(vis0).insert(v as int);
    visited.set(v, true);
    proof {
        assert(topo@ =~= t0 + dfs_children(g, seen1, v as int, 0));
    }
    let kids = &nodes[v];
    let n = kids.len();
    assert(kids@ == g[v as int]);
    proof {
        assert(!t0.contains(v)) by {
            if t0.contains(v) {
                let i = choose|i: int| 0 <= i < t0.len() && t0[i] == v;
                assert(vis0[t0[i] as int]);
            }
        }
    }
    let mut k: usize = 0;
    while k < n
        invariant
            well_formed(g),
            g == nodes.deep_view(),
            nodes@.len() <= usize::MAX,
            v < nodes@.len(),
            kids@ == g[v as int],
            n == kids@.len(),
            k <= n,
            visited@.len() == nodes@.len(),
            visited@[v as int],
            topological(g, topo@),
            forall|i: int| 0 <= i < topo@.len() ==> visited@[#[trigger] topo@[i] as int],
            forall|x: int| 0 <= x < v && #[trigger] visited@[x] ==> topo@.contains(x as usize),
            !topo@.contains(v),
            topo@.len() >= t0.len(),
            forall|i: int| 0 <= i < t0.len() ==> #[trigger] topo@[i] == t0[i],
            forall|x: usize|
                #[trigger] topo@.contains(x) == (t0.contains(x) || reaches_via(
                    g,
                    v as int,
                    k as int,
                    x as int,
                )),
            forall|x: int|
                0 <= x < nodes@.len() ==> #[trigger] visited@[x] == (vis0[x] || x == v
                    || reaches_via(g, v as int, k as int, x)),
            vis0.len() == nodes@.len(),
            seen1 == marked(vis0).insert(v as int),
            topo@ == t0 + dfs_children(g, seen1, v as int, k as int),
        decreases n - k,
    {
        let c = kids[k];
        assert(c < v);
        let ghost vis1 = visited@;
        proof {
            assert forall|x: int| marked(vis1).contains(x) <==> #[trigger] seen1.union(
                via_set(g, v as int, k as int),
            ).contains(x) by {
                if reaches_via(g, v as int, k as int, x) {
                    lemma_via_below(g, v as int, k as int, x);
                }
            }
            assert(marked(vis1) =~= seen1.union(via_set(g, v as int, k as int)));
        }
        build_topo(nodes, visited, topo, c);
        proof {
            assert(topo@ =~= t0 + dfs_children(g, seen1, v as int, (k + 1) as int));
            if reaches(g, c as int, v as int) {
                lemma_reaches_below(g, c as int, v as int);
            }
        }
        k = k + 1;
    }
    let ghost t2 = topo@;
    topo.push(v);
    proof {
        let t = topo@;
        assert(!marked(vis0).contains(v as int));
        assert(t =~= t0 + dfs_order(g, marked(vis0), v as int));
        assert(t2 =~= t.drop_last());
        assert forall|kk: int| 0 <= kk < g[v as int].len() implies t2.contains(#[trigger] g[v as int][kk]) by {
            lemma_child_reached(g, v as int, n as int, kk);
        }
        assert(t.last() == v);
        assert forall|x: usize| #[trigger] t.contains(x) == (t2.contains(x) || x == v) by {
            if t.contains(x) {
                let i = choose|i: int| 0 <= i < t.len() && t[i] == x;
                if i < t2.len() {
                    assert(t2[i] == x);
                }
            }
            if t2.contains(x) {
                let i = choose|i: int| 0 <= i < t2.len() && t2[i] == x;
                assert(t[i] == x);
            }
            if x == v {
                assert(t[t.len() - 1] == x);
            }
        }
        assert(topological(g, t)) by {
            assert forall|i: int, kk: int|
                0 <= i < t.len() && 0 <= kk < g[t[i] as int].len() implies t.contains(
                #[trigger] g[t[i] as int][kk],
            ) by {
                if i < t2.len() {
                    assert(t2[i] == t[i]);
                    assert(t2.contains(g[t2[i] as int][kk]));
                } else {
                    assert(t[i] == v);
                    assert(t2.contains(g[v as int][kk]));
                }
            }
            assert forall|i: int, j: int, kk: int|
                0 <= i < j < t.len() && 0 <= kk < g[t[i] as int].len() implies #[trigger] g[t[i] as int][kk]
                != #[trigger] t[j] by {
                assert(t2[i] == t[i]);
                if j < t2.len() {
                    assert(t2[j] == t[j]);
                } else {
                    assert(t2.contains(g[t2[i] as int][kk]));
                }
            }
        }
    }
}

/// The recorded nodes of a tape: for each node, the indices of the nodes it
/// was computed from, each smaller than its own index.
pub struct Graph {
    nodes: Vec<Vec<usize>>,
}

impl View for Graph {
    type V = Seq<Seq<usize>>;

    closed spec fn view(&self) -> Seq<Seq<usize>> {
        self.nodes.deep_view()
    }
}

impl Graph {
    /// The graph is well formed: children come before their parent.
    pub closed spec fn wf(&self) -> bool {
        well_formed(self@)
    }

    /// A graph with no nodes.
    pub fn new() -> (r: Graph)
        ensures
            r.wf(),
            r@ == Seq::<Seq<usize>>::empty(),
    {
        let r = Graph { nodes: Vec::new() };
        assert(r@ =~= Seq::<Seq<usize>>::empty());
        r
    }

    /// The number of recorded nodes.
    pub fn len(&self) -> (r: usize)
        ensures
            r == self@.len(),
    {
        self.nodes.len()
    }

    /// Records a node computed from `children`, all of them already
    /// recorded, and returns its index.
    pub fn push(&mut self, children: Vec<usize>) -> (r: usize)
        requires
            old(self).wf(),
            forall|k: int| 0 <= k < children@.len() ==> #[trigger] children@[k] < old(self)@.len(),
        ensures
            final(self).wf(),
            r == old(self)@.len(),
            final(self)@ == old(self)@.push(children@),
    {
        let idx = self.nodes.len();
        let ghost c = children@;
        assert(children.deep_view() =~= c);
        self.nodes.push(children);
        assert(self@ =~= old(self)@.push(c));
        idx
    }

    /// The children of node `v`.
    pub fn children(&self, v: usize) -> (r: &Vec<usize>)
        requires
            v < self@.len(),
        ensures
            r@ == self@[v as int],
    {
        &self.nodes[v]
    }

    /// The nodes that `root` depends on, `root` included, each listed once
    /// and after all of its children: the order in which a backward pass
    /// visits them in reverse. `root` comes last.
    pub fn topo_order(&self, root: usize) -> (t: Vec<usize>)
        requires
            self.wf(),
            root < self@.len(),
        ensures
            topological(self@, t@),
            forall|x: usize| #[trigger] t@.contains(x) <==> reaches(self@, root as int, x as int),
            t@.len() > 0,
            t@.last() == root,
            t@ == dfs_order(self@, Set::empty(), root as int),
    {
        let n = self.nodes.len();
        let mut visited: Vec<bool> = vec![false; n];
        let mut topo: Vec<usize> = Vec::new();
        proof {
            assert forall|x: int| 0 <= x < n implies !visited@[x] by {
                assert(cloned(false, visited@[x]));
            }
        }
        proof {
            assert(marked(visited@) =~= Set::<int>::empty());
        }
        build_topo(&self.nodes, &mut visited, &mut topo, root);
        assert(topo@ =~= Seq::<usize>::empty() + dfs_order(self@, Set::empty(), root as int));
        topo
    }
}

} // verus!
