//! A trie over grapheme clusters, built from the names of sibling directories.
//!
//! Each edge carries one cluster; the path from the root to a node spells a
//! prefix (in clusters) of at least one inserted name.

use crate::grapheme::{clusters, graphemes_of, join_clusters, texts};
use vstd::prelude::*;

verus! {

/// A text cut into grapheme clusters.
pub type Clusters = Seq<Seq<char>>;

/// Some name in `names` begins with the clusters `p`.
pub open spec fn shared(names: Set<Clusters>, p: Clusters) -> bool {
    exists|n: Clusters| #[trigger] names.contains(n) && p.is_prefix_of(n)
}

/// The least `k` with `from <= k <= c.len()` such that no name in `names`
/// begins with the first `k` clusters of `c`.
pub open spec fn unique_len_from(names: Set<Clusters>, c: Clusters, from: nat) -> Option<nat>
    decreases c.len() + 1 - from,
{
    if from > c.len() {
        None
    } else if !shared(names, c.take(from as int)) {
        Some(from)
    } else {
        unique_len_from(names, c, from + 1)
    }
}

/// How many clusters of `c` make its shortest prefix that begins no name in
/// `names`; `None` when `c` itself begins some name.
pub open spec fn unique_prefix_len(names: Set<Clusters>, c: Clusters) -> Option<nat> {
    unique_len_from(names, c, 1)
}

/// The cluster sequences of `names`, as a set.
pub open spec fn clusters_of_all(names: Seq<&str>) -> Set<Clusters> {
    Set::new(
        |g: Clusters| exists|i: int| 0 <= i < names.len() && g == graphemes_of(#[trigger] names[i]@),
    )
}

struct Edge {
    cluster: String,
    child: usize,
}

struct Node {
    edges: Vec<Edge>,
}

impl Node {
    fn new() -> (r: Node)
        ensures
            r.edges@.len() == 0,
    {
        Node { edges: Vec::new() }
    }
}

/// A trie whose edges are grapheme clusters.
pub struct GraphemeClusterTrie {
    nodes: Vec<Node>,
    /// The clusters spelled from the root to each node.
    paths: Ghost<Seq<Clusters>>,
    /// The inserted names, as clusters.
    names: Ghost<Set<Clusters>>,
}

impl View for GraphemeClusterTrie {
    type V = Set<Clusters>;

    closed spec fn view(&self) -> Set<Clusters> {
        self.names@
    }
}

spec fn edge_of(nodes: Seq<Node>, i: int, e: int) -> Edge {
    nodes[i].edges@[e]
}

spec fn has_edge(nodes: Seq<Node>, i: int, g: Seq<char>) -> bool {
    exists|e: int| 0 <= e < nodes[i].edges@.len() && (#[trigger] edge_of(nodes, i, e)).cluster@ == g
}

/// The structure agrees with `names`: edges extend paths by their cluster, no
/// two nodes share a path, every path but the root's begins some name, and
/// every node on the way to a name has the edge that continues it.
#[verifier::opaque]
spec fn trie_inv(nodes: Seq<Node>, paths: Seq<Clusters>, names: Set<Clusters>) -> bool {
    &&& paths.len() == nodes.len()
    &&& nodes.len() >= 1
    &&& paths[0] == Seq::<Seq<char>>::empty()
    &&& forall|i: int, e: int|
        0 <= i < nodes.len() && 0 <= e < nodes[i].edges@.len() ==> {
            &&& (#[trigger] edge_of(nodes, i, e)).child < nodes.len()
            &&& paths[edge_of(nodes, i, e).child as int] == paths[i].push(
                edge_of(nodes, i, e).cluster@,
            )
        }
    &&& forall|a: int, b: int|
        #![trigger paths[a], paths[b]]
        0 <= a < nodes.len() && 0 <= b < nodes.len() && paths[a] == paths[b] ==> a == b
    &&& forall|i: int| 0 < i < nodes.len() ==> shared(names, #[trigger] paths[i])
    &&& forall|n: Clusters, i: int|
        #![trigger names.contains(n), paths[i]]
        0 <= i < nodes.len() && names.contains(n) && paths[i].is_prefix_of(n) && paths[i].len()
            < n.len() ==> has_edge(nodes, i, n[paths[i].len() as int])
}

proof fn lemma_edge(nodes: Seq<Node>, paths: Seq<Clusters>, names: Set<Clusters>, i: int, e: int)
    requires
        trie_inv(nodes, paths, names),
        0 <= i < nodes.len(),
        0 <= e < nodes[i].edges@.len(),
    ensures
        edge_of(nodes, i, e).child < nodes.len(),
        paths[edge_of(nodes, i, e).child as int] == paths[i].push(edge_of(nodes, i, e).cluster@),
{
    reveal(trie_inv);
}

proof fn lemma_root(nodes: Seq<Node>, paths: Seq<Clusters>, names: Set<Clusters>)
    requires
        trie_inv(nodes, paths, names),
    ensures
        nodes.len() >= 1,
        paths.len() == nodes.len(),
        paths[0] == Seq::<Seq<char>>::empty(),
{
    reveal(trie_inv);
}

proof fn lemma_node_shared(nodes: Seq<Node>, paths: Seq<Clusters>, names: Set<Clusters>, i: int)
    requires
        trie_inv(nodes, paths, names),
        0 < i < nodes.len(),
    ensures
        shared(names, paths[i]),
{
    reveal(trie_inv);
}

proof fn lemma_missing_edge(
    nodes: Seq<Node>,
    paths: Seq<Clusters>,
    names: Set<Clusters>,
    i: int,
    g: Seq<char>,
)
    requires
        trie_inv(nodes, paths, names),
        0 <= i < nodes.len(),
        !has_edge(nodes, i, g),
    ensures
        !shared(names, paths[i].push(g)),
{
    reveal(trie_inv);
    let p = paths[i];
    if shared(names, p.push(g)) {
        let n = choose|n: Clusters| #[trigger] names.contains(n) && p.push(g).is_prefix_of(n);
        assert(p.is_prefix_of(n));
        assert(p.push(g)[p.len() as int] == g);
        assert(n.subrange(0, p.len() + 1 as int)[p.len() as int] == n[p.len() as int]);
        assert(n[p.len() as int] == g);
    }
}

proof fn lemma_prefix_push<A>(p: Seq<A>, n: Seq<A>)
    requires
        p.is_prefix_of(n),
        p.len() < n.len(),
    ensures
        p.push(n[p.len() as int]).is_prefix_of(n),
{
    assert(p.push(n[p.len() as int]) =~= n.subrange(0, p.len() + 1 as int));
}

proof fn lemma_insert_empty(nodes: Seq<Node>, paths: Seq<Clusters>, names: Set<Clusters>)
    requires
        trie_inv(nodes, paths, names),
    ensures
        trie_inv(nodes, paths, names.insert(Seq::<Seq<char>>::empty())),
{
    reveal(trie_inv);
    let names2 = names.insert(Seq::<Seq<char>>::empty());
    assert forall|i: int| 0 < i < nodes.len() implies shared(names2, #[trigger] paths[i]) by {
        let x = choose|x: Clusters| #[trigger] names.contains(x) && paths[i].is_prefix_of(x);
        assert(names2.contains(x));
    }
}

/// Taking an edge that exists: the name being inserted grows by one cluster.
proof fn lemma_insert_step_found(
    nodes: Seq<Node>,
    paths: Seq<Clusters>,
    base: Set<Clusters>,
    cur: int,
    tk: Clusters,
    g: Seq<char>,
)
    requires
        trie_inv(nodes, paths, base.insert(tk)),
        0 <= cur < nodes.len(),
        paths[cur] == tk,
        has_edge(nodes, cur, g),
    ensures
        trie_inv(nodes, paths, base.insert(tk.push(g))),
{
    reveal(trie_inv);
    let s1 = base.insert(tk);
    let s2 = base.insert(tk.push(g));
    assert(tk.is_prefix_of(tk.push(g)));
    assert forall|i: int| 0 < i < nodes.len() implies shared(s2, #[trigger] paths[i]) by {
        let x = choose|x: Clusters| #[trigger] s1.contains(x) && paths[i].is_prefix_of(x);
        if x == tk {
            assert(s2.contains(tk.push(g)));
            assert(paths[i].is_prefix_of(tk.push(g)));
        } else {
            assert(s2.contains(x));
        }
    }
    assert forall|n: Clusters, i: int|
        0 <= i < nodes.len() && #[trigger] s2.contains(n) && (#[trigger] paths[i]).is_prefix_of(n)
            && paths[i].len() < n.len() implies has_edge(nodes, i, n[paths[i].len() as int]) by {
        if n == tk.push(g) && !base.contains(n) {
            if paths[i].len() < tk.len() {
                assert(paths[i].is_prefix_of(tk));
                assert(s1.contains(tk));
                assert(tk[paths[i].len() as int] == n[paths[i].len() as int]);
            } else {
                assert(paths[i] =~= tk);
                assert(paths[i] == paths[cur]);
                assert(i == cur);
                assert(n[tk.len() as int] == g);
            }
        } else {
            assert(s1.contains(n));
        }
    }
}

/// The state before adding a node for cluster `g` below node `cur`, and the
/// nodes after it.
spec fn new_node_step(
    nodes: Seq<Node>,
    paths: Seq<Clusters>,
    base: Set<Clusters>,
    cur: int,
    tk: Clusters,
    g: Seq<char>,
    nodes2: Seq<Node>,
) -> bool {
    &&& trie_inv(nodes, paths, base.insert(tk))
    &&& 0 <= cur < nodes.len()
    &&& paths[cur] == tk
    &&& !has_edge(nodes, cur, g)
    &&& nodes2.len() == nodes.len() + 1
    &&& nodes2[nodes.len() as int].edges@.len() == 0
    &&& forall|i: int| 0 <= i < nodes.len() && i != cur ==> nodes2[i].edges@ == nodes[i].edges@
    &&& nodes2[cur].edges@.len() == nodes[cur].edges@.len() + 1
    &&& forall|e: int|
        0 <= e < nodes[cur].edges@.len() ==> nodes2[cur].edges@[e] == nodes[cur].edges@[e]
    &&& nodes2[cur].edges@.last().cluster@ == g
    &&& nodes2[cur].edges@.last().child == nodes.len()
}

proof fn lemma_new_fresh(
    nodes: Seq<Node>,
    paths: Seq<Clusters>,
    base: Set<Clusters>,
    cur: int,
    tk: Clusters,
    g: Seq<char>,
    nodes2: Seq<Node>,
)
    requires
        new_node_step(nodes, paths, base, cur, tk, g, nodes2),
    ensures
        forall|x: Clusters| #[trigger] base.contains(x) ==> !tk.push(g).is_prefix_of(x),
{
    reveal(trie_inv);
    let len = nodes.len() as int;
    let tk1 = tk.push(g);
    let paths2 = paths.push(tk1);
    let s1 = base.insert(tk);
    let s2 = base.insert(tk1);
    assert(tk.is_prefix_of(tk1));
    assert(tk1[tk.len() as int] == g);
    // No earlier name continues `tk` with `g`.
    assert forall|x: Clusters| #[trigger] base.contains(x) implies !tk1.is_prefix_of(x) by {
        if tk1.is_prefix_of(x) {
            assert(tk.is_prefix_of(x));
            assert(s1.contains(x));
            assert(paths[cur].is_prefix_of(x));
            assert(x[tk.len() as int] == g);
            assert(has_edge(nodes, cur, x[paths[cur].len() as int]));
        }
    }
}

proof fn lemma_new_edges(
    nodes: Seq<Node>,
    paths: Seq<Clusters>,
    base: Set<Clusters>,
    cur: int,
    tk: Clusters,
    g: Seq<char>,
    nodes2: Seq<Node>,
)
    requires
        new_node_step(nodes, paths, base, cur, tk, g, nodes2),
    ensures
        forall|i: int, e: int|
            0 <= i < nodes2.len() && 0 <= e < nodes2[i].edges@.len() ==> {
                &&& (#[trigger] edge_of(nodes2, i, e)).child < nodes2.len()
                &&& paths.push(tk.push(g))[edge_of(nodes2, i, e).child as int] == paths.push(
                    tk.push(g),
                )[i].push(edge_of(nodes2, i, e).cluster@)
            },
{
    reveal(trie_inv);
    let len = nodes.len() as int;
    let tk1 = tk.push(g);
    let paths2 = paths.push(tk1);
    let s1 = base.insert(tk);
    let s2 = base.insert(tk1);
    assert(tk.is_prefix_of(tk1));
    assert(tk1[tk.len() as int] == g);
    assert forall|i: int, e: int| 0 <= i < nodes2.len() && 0 <= e < nodes2[i].edges@.len() implies {
        &&& (#[trigger] edge_of(nodes2, i, e)).child < nodes2.len()
        &&& paths2[edge_of(nodes2, i, e).child as int] == paths2[i].push(
            edge_of(nodes2, i, e).cluster@,
        )
    } by {
        if i == cur && e == nodes[cur].edges@.len() {
        } else {
            assert(edge_of(nodes2, i, e) == edge_of(nodes, i, e));
            assert(edge_of(nodes, i, e).child < nodes.len());
        }
    }
}

proof fn lemma_new_injective(
    nodes: Seq<Node>,
    paths: Seq<Clusters>,
    base: Set<Clusters>,
    cur: int,
    tk: Clusters,
    g: Seq<char>,
    nodes2: Seq<Node>,
)
    requires
        new_node_step(nodes, paths, base, cur, tk, g, nodes2),
    ensures
        forall|a: int, b: int|
            #![trigger paths.push(tk.push(g))[a], paths.push(tk.push(g))[b]]
            0 <= a < nodes2.len() && 0 <= b < nodes2.len() && paths.push(tk.push(g))[a]
                == paths.push(tk.push(g))[b] ==> a == b,
{
    lemma_new_fresh(nodes, paths, base, cur, tk, g, nodes2);
    reveal(trie_inv);
    let len = nodes.len() as int;
    let tk1 = tk.push(g);
    let paths2 = paths.push(tk1);
    let s1 = base.insert(tk);
    let s2 = base.insert(tk1);
    assert(tk.is_prefix_of(tk1));
    assert(tk1[tk.len() as int] == g);
    assert forall|a: int, b: int|
        #![trigger paths2[a], paths2[b]]
        0 <= a < nodes2.len() && 0 <= b < nodes2.len() && paths2[a] == paths2[b] implies a
        == b by {
        if a == len && b < len || b == len && a < len {
            let o = if a == len { b } else { a };
            assert(paths[o] == tk1);
            assert(o != 0) by {
                assert(paths[0].len() == 0);
            }
            assert(shared(s1, paths[o]));
            let x = choose|x: Clusters| #[trigger] s1.contains(x) && paths[o].is_prefix_of(x);
            if x == tk {
                assert(tk1.len() > tk.len());
            } else {
                assert(base.contains(x));
            }
        }
    }
}

proof fn lemma_new_sound(
    nodes: Seq<Node>,
    paths: Seq<Clusters>,
    base: Set<Clusters>,
    cur: int,
    tk: Clusters,
    g: Seq<char>,
    nodes2: Seq<Node>,
)
    requires
        new_node_step(nodes, paths, base, cur, tk, g, nodes2),
    ensures
        forall|i: int|
            0 < i < nodes2.len() ==> shared(
                base.insert(tk.push(g)),
                #[trigger] paths.push(tk.push(g))[i],
            ),
{
    reveal(trie_inv);
    let len = nodes.len() as int;
    let tk1 = tk.push(g);
    let paths2 = paths.push(tk1);
    let s1 = base.insert(tk);
    let s2 = base.insert(tk1);
    assert(tk.is_prefix_of(tk1));
    assert(tk1[tk.len() as int] == g);
    assert forall|i: int| 0 < i < nodes2.len() implies shared(s2, #[trigger] paths2[i]) by {
        if i == len {
            assert(s2.contains(tk1));
            assert(tk1.is_prefix_of(tk1));
        } else {
            assert(shared(s1, paths[i]));
            let x = choose|x: Clusters| #[trigger] s1.contains(x) && paths[i].is_prefix_of(x);
            if x == tk {
                assert(s2.contains(tk1));
                assert(paths[i].is_prefix_of(tk1));
            } else {
                assert(s2.contains(x));
            }
        }
    }
}

proof fn lemma_new_complete(
    nodes: Seq<Node>,
    paths: Seq<Clusters>,
    base: Set<Clusters>,
    cur: int,
    tk: Clusters,
    g: Seq<char>,
    nodes2: Seq<Node>,
)
    requires
        new_node_step(nodes, paths, base, cur, tk, g, nodes2),
    ensures
        forall|n: Clusters, i: int|
            #![trigger base.insert(tk.push(g)).contains(n), paths.push(tk.push(g))[i]]
            0 <= i < nodes2.len() && base.insert(tk.push(g)).contains(n) && paths.push(
                tk.push(g),
            )[i].is_prefix_of(n) && paths.push(tk.push(g))[i].len() < n.len() ==> has_edge(
                nodes2,
                i,
                n[paths.push(tk.push(g))[i].len() as int],
            ),
{
    lemma_new_fresh(nodes, paths, base, cur, tk, g, nodes2);
    reveal(trie_inv);
    let len = nodes.len() as int;
    let tk1 = tk.push(g);
    let paths2 = paths.push(tk1);
    let s1 = base.insert(tk);
    let s2 = base.insert(tk1);
    assert(tk.is_prefix_of(tk1));
    assert(tk1[tk.len() as int] == g);
    assert forall|n: Clusters, i: int|
        0 <= i < nodes2.len() && #[trigger] s2.contains(n) && (#[trigger] paths2[i]).is_prefix_of(
            n,
        ) && paths2[i].len() < n.len() implies has_edge(nodes2, i, n[paths2[i].len() as int]) by {
        if i == len {
            if base.contains(n) {
                lemma_prefix_push(tk1, n);
                assert(tk1.is_prefix_of(n));
            } else {
                assert(n == tk1);
            }
        } else {
            assert(paths2[i] == paths[i]);
            let k = paths[i].len() as int;
            if base.contains(n) {
                assert(s1.contains(n));
                assert(has_edge(nodes, i, n[k]));
                let e = choose|e: int|
                    0 <= e < nodes[i].edges@.len() && (#[trigger] edge_of(nodes, i, e)).cluster@
                        == n[k];
                assert(edge_of(nodes2, i, e) == edge_of(nodes, i, e));
            } else {
                assert(n == tk1);
                if k < tk.len() {
                    assert(paths[i].is_prefix_of(tk));
                    assert(s1.contains(tk));
                    assert(tk[k] == n[k]);
                    assert(has_edge(nodes, i, n[k]));
                    let e = choose|e: int|
                        0 <= e < nodes[i].edges@.len() && (#[trigger] edge_of(nodes, i, e)).cluster@
                            == n[k];
                    assert(edge_of(nodes2, i, e) == edge_of(nodes, i, e));
                } else {
                    assert(paths[i] =~= tk);
                    assert(paths[i] == paths[cur]);
                    assert(i == cur);
                    let e = nodes[cur].edges@.len() as int;
                    assert(edge_of(nodes2, i, e).cluster@ == g);
                }
            }
        }
    }
}

/// Adding a node for the next cluster of the name being inserted.
proof fn lemma_insert_step_new(
    nodes: Seq<Node>,
    paths: Seq<Clusters>,
    base: Set<Clusters>,
    cur: int,
    tk: Clusters,
    g: Seq<char>,
    nodes2: Seq<Node>,
)
    requires
        new_node_step(nodes, paths, base, cur, tk, g, nodes2),
    ensures
        trie_inv(nodes2, paths.push(tk.push(g)), base.insert(tk.push(g))),
{
    lemma_new_edges(nodes, paths, base, cur, tk, g, nodes2);
    lemma_new_injective(nodes, paths, base, cur, tk, g, nodes2);
    lemma_new_sound(nodes, paths, base, cur, tk, g, nodes2);
    lemma_new_complete(nodes, paths, base, cur, tk, g, nodes2);
    reveal(trie_inv);
}

impl GraphemeClusterTrie {
    /// The trie's nodes and edges agree with the names it holds.
    pub closed spec fn wf(&self) -> bool {
        trie_inv(self.nodes@, self.paths@, self.names@)
    }

    /// A trie holding the cluster sequences of `names`.
    pub fn from_iter(names: &[&str]) -> (r: Self)
        ensures
            r.wf(),
            r@ == clusters_of_all(names@),
    {
        let mut nodes: Vec<Node> = Vec::new();
        nodes.push(Node::new());
        let ghost paths = seq![Seq::<Seq<char>>::empty()];
        let ghost held = Set::<Clusters>::empty();
        let mut trie = GraphemeClusterTrie { nodes, paths: Ghost(paths), names: Ghost(held) };
        proof {
            reveal(trie_inv);
            assert(trie_inv(trie.nodes@, trie.paths@, trie.names@));
        }
        let mut m: usize = 0;
        while m < names.len()
            invariant
                trie.wf(),
                m <= names@.len(),
                trie@ == clusters_of_all(names@.take(m as int)),
            decreases names@.len() - m,
        {
            trie.insert(names[m]);
            proof {
                let a = names@.take(m as int);
                let b = names@.take(m + 1);
                assert(b =~= a.push(names@[m as int]));
                assert forall|g: Clusters| #[trigger] clusters_of_all(b).contains(g) == clusters_of_all(
                    a,
                ).insert(graphemes_of(names@[m as int]@)).contains(g) by {
                    if clusters_of_all(b).contains(g) {
                        let i = choose|i: int| 0 <= i < b.len() && g == graphemes_of(#[trigger] b[i]@);
                        if i < m {
                            assert(a[i] == b[i]);
                        }
                    }
                    if clusters_of_all(a).contains(g) {
                        let i = choose|i: int| 0 <= i < a.len() && g == graphemes_of(#[trigger] a[i]@);
                        assert(a[i] == b[i]);
                    }
                    if g == graphemes_of(names@[m as int]@) {
                        assert(b[m as int] == names@[m as int]);
                    }
                }
                assert(clusters_of_all(b) =~= clusters_of_all(a).insert(graphemes_of(names@[m as int]@)));
            }
            m += 1;
        }
        assert(names@.take(names@.len() as int) =~= names@);
        trie
    }

    fn insert(&mut self, s: &str)
        requires
            old(self).wf(),
        ensures
            final(self).wf(),
            final(self)@ == old(self)@.insert(graphemes_of(s@)),
    {
        let c = clusters(s);
        let ghost cv = texts(c@);
        let ghost base = self.names@;
        proof {
            lemma_insert_empty(self.nodes@, self.paths@, base);
            lemma_root(self.nodes@, self.paths@, base);
        }
        self.names = Ghost(base.insert(cv.take(0)));
        assert(cv.take(0) =~= Seq::<Seq<char>>::empty());
        let mut cur: usize = 0;
        let mut k: usize = 0;
        while k < c.len()
            invariant
                self.wf(),
                cv == texts(c@),
                k <= c@.len(),
                cur < self.nodes@.len(),
                self.paths@[cur as int] == cv.take(k as int),
                self.names@ == base.insert(cv.take(k as int)),
            decreases c@.len() - k,
        {
            let ghost tk = cv.take(k as int);
            assert(cv.take(k + 1) =~= tk.push(cv[k as int]));
            match self.find_child(cur, &c[k]) {
                Some(j) => {
                    proof {
                        lemma_insert_step_found(self.nodes@, self.paths@, base, cur as int, tk, cv[k as int]);
                    }
                    self.names = Ghost(base.insert(cv.take(k + 1)));
                    cur = j;
                },
                None => {
                    let ghost nodes0 = self.nodes@;
                    let j = self.nodes.len();
                    self.nodes.push(Node::new());
                    self.nodes[cur].edges.push(Edge { cluster: c[k].clone(), child: j });
                    proof {
                        lemma_root(nodes0, self.paths@, self.names@);
                        assert(new_node_step(nodes0, self.paths@, base, cur as int, tk, cv[k as int], self.nodes@));
                        lemma_insert_step_new(nodes0, self.paths@, base, cur as int, tk, cv[k as int], self.nodes@);
                    }
                    self.paths = Ghost(self.paths@.push(cv.take(k + 1)));
                    self.names = Ghost(base.insert(cv.take(k + 1)));
                    cur = j;
                },
            }
            k += 1;
        }
        assert(cv.take(c@.len() as int) =~= cv);
    }

    fn find_child(&self, cur: usize, g: &String) -> (r: Option<usize>)
        requires
            self.wf(),
            cur < self.nodes@.len(),
        ensures
            r matches Some(j) ==> j < self.nodes@.len() && self.paths@[j as int]
                == self.paths@[cur as int].push(g@) && has_edge(self.nodes@, cur as int, g@),
            r is None ==> !has_edge(self.nodes@, cur as int, g@),
    {
        let edges = &self.nodes[cur].edges;
        let mut e: usize = 0;
        while e < edges.len()
            invariant
                self.wf(),
                cur < self.nodes@.len(),
                edges == self.nodes@[cur as int].edges,
                e <= edges@.len(),
                forall|f: int|
                    0 <= f < e ==> (#[trigger] edge_of(self.nodes@, cur as int, f)).cluster@ != g@,
            decreases edges@.len() - e,
        {
            if edges[e].cluster == *g {
                assert(edge_of(self.nodes@, cur as int, e as int).cluster@ == g@);
                proof {
                    lemma_edge(self.nodes@, self.paths@, self.names@, cur as int, e as int);
                }
                return Some(edges[e].child);
            }
            e += 1;
        }
        None
    }

    /// The shortest prefix of `s`, in whole grapheme clusters, that no
    /// inserted name begins with; `None` when `s` itself begins (or equals)
    /// some inserted name.
    pub fn shortest_unique_prefix(&self, s: &str) -> (r: Option<String>)
        requires
            self.wf(),
        ensures
            match unique_prefix_len(self@, graphemes_of(s@)) {
                None => r is None,
                Some(k) => r matches Some(p) && p@ == graphemes_of(s@).take(k as int).flatten(),
            },
    {
        let c = clusters(s);
        match self.unique_len(&c) {
            Some(k) => {
                assert(unique_prefix_len(self@, texts(c@)) == Some(k as nat));
                Some(join_clusters(&c, k))
            },
            None => None,
        }
    }

    /// How many of the clusters `c` make the shortest prefix that begins no
    /// inserted name.
    pub(crate) fn unique_len(&self, c: &Vec<String>) -> (r: Option<usize>)
        requires
            self.wf(),
        ensures
            match unique_prefix_len(self@, texts(c@)) {
                None => r is None,
                Some(k) => r matches Some(j) && j == k && 1 <= k <= c@.len(),
            },
    {
        let ghost cv = texts(c@);
        let mut cur: usize = 0;
        let mut i: usize = 0;
        proof {
            lemma_root(self.nodes@, self.paths@, self.names@);
            assert(cv.take(0) =~= Seq::<Seq<char>>::empty());
        }
        while i < c.len()
            invariant
                self.wf(),
                cv == texts(c@),
                i <= c@.len(),
                cur < self.nodes@.len(),
                self.paths@[cur as int] == cv.take(i as int),
                unique_prefix_len(self@, cv) == unique_len_from(self@, cv, (i + 1) as nat),
            decreases c@.len() - i,
        {
            assert(cv.take(i + 1) =~= cv.take(i as int).push(cv[i as int]));
            match self.find_child(cur, &c[i]) {
                Some(j) => {
                    proof {
                        lemma_root(self.nodes@, self.paths@, self.names@);
                        assert(self.paths@[j as int].len() > 0);
                        lemma_node_shared(self.nodes@, self.paths@, self.names@, j as int);
                    }
                    cur = j;
                },
                None => {
                    proof {
                        lemma_missing_edge(self.nodes@, self.paths@, self.names@, cur as int, cv[i as int]);
                    }
                    return Some(i + 1);
                },
            }
            i += 1;
        }
        None
    }
}

} // verus!
