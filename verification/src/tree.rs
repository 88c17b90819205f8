//! The structural model of the node store: parent/child link consistency,
//! attachment (reachability from the root), and counting of attached
//! leaves and splits, together with the lemmas the mutators rely on.

use vstd::prelude::*;

use crate::Id;
use crate::Mux;
use crate::Node;
use vstd::set_lib::lemma_len_subset;
use vstd::set_lib::lemma_int_range;
use vstd::set_lib::set_int_range;

verus! {

/// The links of node `i` agree with its neighbours: every child points back
/// to `i`, children are pairwise distinct and at most two, a leaf has no
/// children, and only the root may have exactly one child.
pub open spec fn node_ok(nodes: Seq<Node>, root: Id, i: int) -> bool {
    let n = nodes[i];
    &&& n.children@.len() <= 2
    &&& (forall|t: int|
        0 <= t < n.children@.len() ==> {
            &&& (#[trigger] n.children@[t] as int) < nodes.len()
            &&& nodes[n.children@[t] as int].parent == Some(i as Id)
        })
    &&& (forall|t1: int, t2: int|
        0 <= t1 < t2 < n.children@.len() ==> n.children@[t1] != n.children@[t2])
    &&& match n.parent {
        Some(p) => (p as int) < nodes.len() && nodes[p as int].children@.contains(i as Id),
        None => true,
    }
    &&& (n.pane is Some ==> n.children@.len() == 0)
    &&& (i != root ==> n.children@.len() != 1)
}

/// Global link consistency of the arena, rooted at `root`.
pub open spec fn links_ok(nodes: Seq<Node>, root: Id) -> bool {
    &&& 0 < nodes.len()
    &&& (root as int) < nodes.len()
    &&& nodes[root as int].parent is None
    &&& forall|i: int| 0 <= i < nodes.len() ==> #[trigger] node_ok(nodes, root, i)
}

/// The parent chain starting at `from` arrives at `to` after exactly `s`
/// steps.
pub open spec fn reaches_node(nodes: Seq<Node>, from: Id, to: Id, s: nat) -> bool
    decreases s,
{
    if s == 0 {
        from == to
    } else {
        &&& (from as int) < nodes.len()
        &&& match nodes[from as int].parent {
            Some(p) => reaches_node(nodes, p, to, (s - 1) as nat),
            None => false,
        }
    }
}

/// The parent chain starting at `i` arrives at the root after exactly `n`
/// steps.
pub open spec fn reaches_root(nodes: Seq<Node>, root: Id, i: Id, n: nat) -> bool {
    reaches_node(nodes, i, root, n)
}

/// Whether `i` is attached: some number of parent steps leads to the root.
pub open spec fn attached_in(nodes: Seq<Node>, root: Id, i: Id) -> bool {
    exists|n: nat| reaches_root(nodes, root, i, n)
}

/// Whether `a` is a proper ancestor of `d`.
pub open spec fn is_ancestor(nodes: Seq<Node>, a: Id, d: Id) -> bool {
    exists|s: nat| s > 0 && reaches_node(nodes, d, a, s)
}

/// How many of the nodes with index below `k` are attached and, for
/// `leaves` true, host a pane, or, for `leaves` false, do not.
pub open spec fn count_upto(nodes: Seq<Node>, root: Id, leaves: bool, k: int) -> int
    decreases k,
{
    if k <= 0 {
        0
    } else {
        count_upto(nodes, root, leaves, k - 1) + if attached_in(nodes, root, (k - 1) as Id)
            && ((nodes[k - 1].pane is Some) == leaves) {
            1int
        } else {
            0int
        }
    }
}

/// Whether `x` lies in the subtree rooted at `r`: it is `r` itself or a
/// proper descendant of it.
pub open spec fn in_subtree(nodes: Seq<Node>, r: Id, x: Id) -> bool {
    x == r || is_ancestor(nodes, r, x)
}

/// Chains compose step by step: `s` steps from `from` to `mid` followed by
/// `m` steps from `mid` to `to` make `s + m` steps in all.
pub proof fn lemma_chain_compose(nodes: Seq<Node>, from: Id, mid: Id, to: Id, s: nat, m: nat)
    requires
        reaches_node(nodes, from, mid, s),
        reaches_node(nodes, mid, to, m),
    ensures
        reaches_node(nodes, from, to, (s + m) as nat),
    decreases s,
{
    if s > 0 {
        let p = nodes[from as int].parent.unwrap();
        lemma_chain_compose(nodes, p, mid, to, (s - 1) as nat, m);
    }
}


/// A single parent step is a one-step chain.
pub proof fn lemma_one_step(nodes: Seq<Node>, x: Id, p: Id)
    requires
        (x as int) < nodes.len(),
        nodes[x as int].parent == Some(p),
    ensures
        reaches_node(nodes, x, p, 1nat),
{
    reveal_with_fuel(reaches_node, 2);
    assert(reaches_node(nodes, p, p, 0nat));
}

/// An attached node never sits on its own strict ancestor chain.
pub proof fn lemma_no_self_loop(nodes: Seq<Node>, root: Id, x: Id, s: nat)
    requires
        nodes[root as int].parent is None,
        attached_in(nodes, root, x),
        reaches_node(nodes, x, x, s),
    ensures
        s == 0,
{
    let n = choose|n: nat| reaches_root(nodes, root, x, n);
    lemma_chain_compose(nodes, x, x, root, s, n);
    lemma_reaches_unique(nodes, root, x, (s + n) as nat, n);
}

/// Subtree membership runs down parent steps: if `y`'s parent lies outside
/// the subtree of `r` only when `y` does, seen from the other side, a node
/// whose parent is in the subtree is in the subtree.
pub proof fn lemma_subtree_parent(nodes: Seq<Node>, r: Id, y: Id, p: Id)
    requires
        (y as int) < nodes.len(),
        nodes[y as int].parent == Some(p),
        in_subtree(nodes, r, p),
    ensures
        in_subtree(nodes, r, y),
{
    reveal_with_fuel(reaches_node, 2);
    assert(reaches_node(nodes, y, p, 1nat));
    if p == r {
        assert(reaches_node(nodes, y, r, 1nat));
    } else {
        let s = choose|s: nat| s > 0 && reaches_node(nodes, p, r, s);
        lemma_chain_compose(nodes, y, p, r, 1nat, s);
    }
}

/// A node all of whose chains stay outside the subtrees of `a` and `b`
/// keeps its chains when only the parents of `a` and `b` change.
pub proof fn lemma_chain_outside(
    nodes1: Seq<Node>,
    nodes2: Seq<Node>,
    a: Id,
    b: Id,
    to: Id,
    y: Id,
    k: nat,
)
    requires
        nodes1.len() <= nodes2.len(),
        forall|j: int|
            0 <= j < nodes1.len() && j != a && j != b ==> nodes2[j].parent == nodes1[j].parent,
        reaches_node(nodes1, y, to, k),
        !in_subtree(nodes1, a, y),
        !in_subtree(nodes1, b, y),
    ensures
        reaches_node(nodes2, y, to, k),
    decreases k,
{
    if k > 0 {
        let p = nodes1[y as int].parent.unwrap();
        if in_subtree(nodes1, a, p) {
            lemma_subtree_parent(nodes1, a, y, p);
        }
        if in_subtree(nodes1, b, p) {
            lemma_subtree_parent(nodes1, b, y, p);
        }
        lemma_chain_outside(nodes1, nodes2, a, b, to, p, (k - 1) as nat);
    }
}

/// A leaf has no descendants: a chain into a childless node has length
/// zero, since any last step would have to leave from one of its children.
pub proof fn lemma_childless_no_descendant(nodes: Seq<Node>, root: Id, r: Id, x: Id, s: nat)
    requires
        links_ok(nodes, root),
        (r as int) < nodes.len(),
        nodes[r as int].children@.len() == 0,
        reaches_node(nodes, x, r, s),
    ensures
        s == 0,
    decreases s,
{
    if s > 0 {
        reveal_with_fuel(reaches_node, 2);
        let p = nodes[x as int].parent.unwrap();
        assert(node_ok(nodes, root, x as int));
        if s == 1 {
            assert(p == r);
            assert(nodes[r as int].children@.contains(x));
        } else {
            lemma_childless_no_descendant(nodes, root, r, p, (s - 1) as nat);
        }
    }
}

/// A node reaches the root by only one number of steps: the parent chain is
/// a function, and it stops at the root.
pub proof fn lemma_reaches_unique(nodes: Seq<Node>, root: Id, i: Id, n1: nat, n2: nat)
    requires
        nodes[root as int].parent is None,
        reaches_root(nodes, root, i, n1),
        reaches_root(nodes, root, i, n2),
    ensures
        n1 == n2,
    decreases n1,
{
    if n1 == 0 {
        if n2 != 0 {
            assert(nodes[i as int].parent is Some);
        }
    } else {
        if n2 == 0 {
            assert(nodes[i as int].parent is Some);
        } else {
            let p = nodes[i as int].parent.unwrap();
            lemma_reaches_unique(nodes, root, p, (n1 - 1) as nat, (n2 - 1) as nat);
        }
    }
}

/// Chains compose: `s` steps from `from` to `mid` and `m` steps from `mid`
/// to the root make `s + m` steps from `from` to the root.
pub proof fn lemma_reaches_compose(nodes: Seq<Node>, root: Id, from: Id, mid: Id, s: nat, m: nat)
    requires
        reaches_node(nodes, from, mid, s),
        reaches_root(nodes, root, mid, m),
    ensures
        reaches_root(nodes, root, from, (s + m) as nat),
    decreases s,
{
    if s > 0 {
        let p = nodes[from as int].parent.unwrap();
        lemma_reaches_compose(nodes, root, p, mid, (s - 1) as nat, m);
    }
}

/// The node `t` steps up the parent chain from `i`, staying put where the
/// chain ends.
pub open spec fn anc_at(nodes: Seq<Node>, i: Id, t: nat) -> Id
    decreases t,
{
    if t == 0 {
        i
    } else {
        anc_at(nodes, parent_or_self(nodes, i), (t - 1) as nat)
    }
}

/// The parent of `i`, or `i` itself where no parent exists.
pub open spec fn parent_or_self(nodes: Seq<Node>, i: Id) -> Id {
    if (i as int) < nodes.len() {
        match nodes[i as int].parent {
            Some(p) => p,
            None => i,
        }
    } else {
        i
    }
}

/// Every prefix of a chain to the root is itself on the chain: after `t` of
/// the `n` steps, the remaining chain has `n - t` steps.
pub proof fn lemma_anc_reaches(nodes: Seq<Node>, root: Id, i: Id, n: nat, t: nat)
    requires
        reaches_root(nodes, root, i, n),
        t <= n,
    ensures
        reaches_root(nodes, root, anc_at(nodes, i, t), (n - t) as nat),
    decreases t,
{
    if t > 0 {
        let p = nodes[i as int].parent.unwrap();
        assert(parent_or_self(nodes, i) == p);
        lemma_anc_reaches(nodes, root, p, (n - 1) as nat, (t - 1) as nat);
    }
}

/// The set of chain nodes passed within the first `t` steps, as integers.
pub open spec fn anc_set(nodes: Seq<Node>, i: Id, t: nat) -> Set<int>
    decreases t,
{
    if t == 0 {
        Set::empty().insert(i as int)
    } else {
        anc_set(nodes, i, (t - 1) as nat).insert(anc_at(nodes, i, t) as int)
    }
}

proof fn lemma_anc_set_card(nodes: Seq<Node>, root: Id, i: Id, n: nat, t: nat)
    requires
        (root as int) < nodes.len(),
        nodes[root as int].parent is None,
        reaches_root(nodes, root, i, n),
        t <= n,
    ensures
        anc_set(nodes, i, t).finite(),
        anc_set(nodes, i, t).len() == t + 1,
        forall|x: int| anc_set(nodes, i, t).contains(x) ==> 0 <= x < nodes.len(),
        forall|x: int|
            anc_set(nodes, i, t).contains(x) <==> exists|u: nat|
                u <= t && x == anc_at(nodes, i, u) as int,
    decreases t,
{
    if t == 0 {
        assert(anc_at(nodes, i, 0) == i);
        if n == 0 {
            assert(i == root);
        }
        assert(forall|x: int|
            anc_set(nodes, i, 0).contains(x) ==> x == anc_at(nodes, i, 0) as int);
    } else {
        lemma_anc_set_card(nodes, root, i, n, (t - 1) as nat);
        let a = anc_at(nodes, i, t);
        lemma_anc_reaches(nodes, root, i, n, t);
        if n - t > 0 {
            assert((a as int) < nodes.len());
        } else {
            assert(a == root);
        }
        // a is new: were it equal to an earlier chain node, that node would
        // reach the root by two different step counts.
        assert forall|u: nat| u <= t - 1 implies anc_at(nodes, i, u) != a by {
            lemma_anc_reaches(nodes, root, i, n, u);
            if anc_at(nodes, i, u) == a {
                lemma_reaches_unique(nodes, root, a, (n - u) as nat, (n - t) as nat);
            }
        }
        assert(!anc_set(nodes, i, (t - 1) as nat).contains(a as int));
        assert forall|x: int|
            anc_set(nodes, i, t).contains(x) implies exists|u: nat|
                u <= t && x == anc_at(nodes, i, u) as int by {
            if x == a as int {
                assert(anc_at(nodes, i, t) as int == x);
            }
        }
    }
}

/// A chain to the root is never longer than the arena: its nodes are
/// pairwise distinct indices below the arena length.
pub proof fn lemma_reaches_bound(nodes: Seq<Node>, root: Id, i: Id, n: nat)
    requires
        (root as int) < nodes.len(),
        nodes[root as int].parent is None,
        reaches_root(nodes, root, i, n),
    ensures
        n < nodes.len(),
{
    if n >= nodes.len() {
        let len = nodes.len() as nat;
        lemma_anc_set_card(nodes, root, i, n, len);
        let s = anc_set(nodes, i, len);
        let r = set_int_range(0, nodes.len() as int);
        lemma_int_range(0, nodes.len() as int);
        assert(s.subset_of(r));
        lemma_len_subset(s, r);
    }
}

/// Attachment steps with the parent link: a non-root node is attached
/// exactly when it has a parent and the parent is attached.
pub proof fn lemma_attached_step(nodes: Seq<Node>, root: Id, i: Id)
    requires
        i != root,
        (i as int) < nodes.len(),
    ensures
        attached_in(nodes, root, i) <==> match nodes[i as int].parent {
            Some(p) => attached_in(nodes, root, p),
            None => false,
        },
{
    match nodes[i as int].parent {
        Some(p) => {
            if attached_in(nodes, root, i) {
                let n = choose|n: nat| reaches_root(nodes, root, i, n);
                assert(n != 0);
                assert(reaches_root(nodes, root, p, (n - 1) as nat));
            }
            if attached_in(nodes, root, p) {
                let m = choose|m: nat| reaches_root(nodes, root, p, m);
                assert(reaches_root(nodes, root, i, (m + 1) as nat));
            }
        },
        None => {
            if attached_in(nodes, root, i) {
                let n = choose|n: nat| reaches_root(nodes, root, i, n);
                assert(n != 0);
            }
        },
    }
}

/// The parent link of `nodes[j]`, where present, stays below `len`.
pub open spec fn parent_in_range(nodes: Seq<Node>, j: int, len: int) -> bool {
    match nodes[j].parent {
        Some(p) => (p as int) < len,
        None => true,
    }
}

/// Reachability only reads parent links: two arenas that agree on them
/// below `nodes1.len()` give every such node the same chains.
pub proof fn lemma_reaches_same_parents(
    nodes1: Seq<Node>,
    nodes2: Seq<Node>,
    root: Id,
    i: Id,
    n: nat,
)
    requires
        nodes1.len() <= nodes2.len(),
        forall|j: int| 0 <= j < nodes1.len() ==> nodes2[j].parent == nodes1[j].parent,
        forall|j: int| 0 <= j < nodes1.len() ==> parent_in_range(nodes1, j, nodes1.len() as int),
        (root as int) < nodes1.len(),
        (i as int) < nodes1.len(),
    ensures
        reaches_root(nodes1, root, i, n) == reaches_root(nodes2, root, i, n),
    decreases n,
{
    if n > 0 {
        assert(nodes2[i as int].parent == nodes1[i as int].parent);
        assert(parent_in_range(nodes1, i as int, nodes1.len() as int));
        match nodes1[i as int].parent {
            Some(p) => {
                lemma_reaches_same_parents(nodes1, nodes2, root, p, (n - 1) as nat);
            },
            None => {},
        }
    }
}

/// The attachment form of [`lemma_reaches_same_parents`].
pub proof fn lemma_attached_same_parents(nodes1: Seq<Node>, nodes2: Seq<Node>, root: Id, i: Id)
    requires
        nodes1.len() <= nodes2.len(),
        forall|j: int| 0 <= j < nodes1.len() ==> nodes2[j].parent == nodes1[j].parent,
        forall|j: int| 0 <= j < nodes1.len() ==> parent_in_range(nodes1, j, nodes1.len() as int),
        (root as int) < nodes1.len(),
        (i as int) < nodes1.len(),
    ensures
        attached_in(nodes1, root, i) == attached_in(nodes2, root, i),
{
    if attached_in(nodes1, root, i) {
        let n = choose|n: nat| reaches_root(nodes1, root, i, n);
        lemma_reaches_same_parents(nodes1, nodes2, root, i, n);
    }
    if attached_in(nodes2, root, i) {
        let n = choose|n: nat| reaches_root(nodes2, root, i, n);
        lemma_reaches_same_parents(nodes1, nodes2, root, i, n);
    }
}

/// Every old node keeps its attachment when the arena grows without any
/// old parent link changing.
pub proof fn lemma_attached_frame_all(nodes1: Seq<Node>, nodes2: Seq<Node>, root: Id)
    requires
        nodes1.len() <= nodes2.len(),
        forall|j: int| 0 <= j < nodes1.len() ==> nodes2[j].parent == nodes1[j].parent,
        forall|j: int| 0 <= j < nodes1.len() ==> parent_in_range(nodes1, j, nodes1.len() as int),
        (root as int) < nodes1.len(),
    ensures
        forall|i: Id|
            (i as int) < nodes1.len() ==> #[trigger] attached_in(nodes1, root, i) == attached_in(
                nodes2,
                root,
                i,
            ),
{
    assert forall|i: Id|
        (i as int) < nodes1.len() implies #[trigger] attached_in(nodes1, root, i) == attached_in(
        nodes2,
        root,
        i,
    ) by {
        lemma_attached_same_parents(nodes1, nodes2, root, i);
    }
}

/// Counting is congruent: two states that agree, index by index below `k`,
/// on attachment and on leafness count alike.
pub proof fn lemma_count_congruent(
    nodes1: Seq<Node>,
    root1: Id,
    nodes2: Seq<Node>,
    root2: Id,
    leaves: bool,
    k: int,
)
    requires
        forall|i: int|
            0 <= i < k ==> #[trigger] attached_in(nodes1, root1, i as Id) == attached_in(
                nodes2,
                root2,
                i as Id,
            ),
        forall|i: int| 0 <= i < k ==> (nodes1[i].pane is Some) == (nodes2[i].pane is Some),
    ensures
        count_upto(nodes1, root1, leaves, k) == count_upto(nodes2, root2, leaves, k),
    decreases k,
{
    if k > 0 {
        lemma_count_congruent(nodes1, root1, nodes2, root2, leaves, k - 1);
    }
}

/// Counting after a removal: where exactly the two nodes `a` and `b` lose
/// their attachment and nothing else changes, the count drops by their two
/// old contributions.
pub proof fn lemma_count_drop2(
    nodes0: Seq<Node>,
    root0: Id,
    nodes1: Seq<Node>,
    root1: Id,
    leaves: bool,
    a: Id,
    b: Id,
    k: int,
)
    requires
        a != b,
        forall|i: int| 0 <= i < k ==> (nodes0[i].pane is Some) == (nodes1[i].pane is Some),
        forall|i: int|
            0 <= i < k ==> #[trigger] attached_in(nodes1, root1, i as Id) == (attached_in(
                nodes0,
                root0,
                i as Id,
            ) && i != a && i != b),
    ensures
        count_upto(nodes1, root1, leaves, k) == count_upto(nodes0, root0, leaves, k) - (if (
        a as int) < k && attached_in(nodes0, root0, a) && ((nodes0[a as int].pane is Some)
            == leaves) {
            1int
        } else {
            0int
        }) - (if (b as int) < k && attached_in(nodes0, root0, b) && ((nodes0[
        b as int].pane is Some) == leaves) {
            1int
        } else {
            0int
        }),
    decreases k,
{
    if k > 0 {
        lemma_count_drop2(nodes0, root0, nodes1, root1, leaves, a, b, k - 1);
    }
}

impl Mux {
    /// Walks the parent chain from `id`; `id` is attached exactly when the
    /// walk arrives at the root.
    #[verifier::loop_isolation(false)]
    pub fn is_attached_exec(&self, id: Id) -> (b: bool)
        requires
            self.wf(),
        ensures
            b == self.is_attached(id),
    {
        if id >= self.nodes.len() {
            proof {
                if self.is_attached(id) {
                    let n = choose|n: nat| reaches_root(self.nodes@, self.root, id, n);
                    if n == 0 {
                        assert(id == self.root);
                    }
                }
            }
            return false;
        }
        let ghost nodes = self.nodes@;
        let ghost root = self.root;
        let len = self.nodes.len();
        let mut cur = id;
        let mut steps: usize = 0;
        loop
            invariant
                (cur as int) < nodes.len(),
                steps <= len,
                reaches_node(nodes, id, cur, steps as nat),
                attached_in(nodes, root, id) <==> attached_in(nodes, root, cur),
            decreases len - steps,
        {
            if cur == self.root {
                proof {
                    assert(reaches_root(nodes, root, cur, 0nat));
                }
                return true;
            }
            proof {
                lemma_attached_step(nodes, root, cur);
            }
            match self.nodes[cur].parent {
                None => {
                    return false;
                },
                Some(p) => {
                    if steps == len {
                        // A chain of more steps than there are nodes would
                        // have to repeat an index, which chains to the root
                        // never do.
                        proof {
                            if attached_in(nodes, root, cur) {
                                let m = choose|m: nat| reaches_root(nodes, root, cur, m);
                                lemma_reaches_compose(nodes, root, id, cur, steps as nat, m);
                                lemma_reaches_bound(nodes, root, id, (steps + m) as nat);
                            }
                        }
                        return false;
                    }
                    proof {
                        assert(node_ok(nodes, root, cur as int));
                        lemma_reaches_extend(nodes, id, cur, p, steps as nat);
                    }
                    cur = p;
                    steps = steps + 1;
                },
            }
        }
    }
}

/// A chain from `from` to `cur` extends by one parent step.
pub proof fn lemma_reaches_extend(nodes: Seq<Node>, from: Id, cur: Id, p: Id, s: nat)
    requires
        reaches_node(nodes, from, cur, s),
        (cur as int) < nodes.len(),
        nodes[cur as int].parent == Some(p),
    ensures
        reaches_node(nodes, from, p, (s + 1) as nat),
    decreases s,
{
    if s == 0 {
        assert(reaches_node(nodes, p, p, 0nat));
        assert(reaches_node(nodes, from, p, 1nat));
    } else {
        let q = nodes[from as int].parent.unwrap();
        lemma_reaches_extend(nodes, q, cur, p, (s - 1) as nat);
        assert(reaches_node(nodes, q, p, (s) as nat));
        assert(reaches_node(nodes, from, p, (s + 1) as nat));
    }
}

impl Mux {
    /// Walks the parent chain of the attached node `d` and reports whether
    /// `a` lies strictly above it.
    #[verifier::loop_isolation(false)]
    pub(crate) fn is_ancestor_exec(&self, a: Id, d: Id) -> (b: bool)
        requires
            self.wf(),
            self.is_attached(d),
            (d as int) < self.nodes@.len(),
        ensures
            b == is_ancestor(self.nodes@, a, d),
    {
        let ghost nodes = self.nodes@;
        let ghost root = self.root;
        let mut cur = d;
        let ghost n = choose|n: nat| reaches_root(nodes, root, d, n);
        let mut steps: usize = 0;
        let ghost mut dist = n;
        loop
            invariant
                (cur as int) < nodes.len(),
                reaches_root(nodes, root, cur, dist),
                is_ancestor(nodes, a, d) <==> (exists|s: nat|
                    s > 0 && reaches_node(nodes, cur, a, s)),
            decreases dist,
        {
            match self.nodes[cur].parent {
                None => {
                    proof {
                        if exists|s: nat| s > 0 && reaches_node(nodes, cur, a, s) {
                            let s = choose|s: nat| s > 0 && reaches_node(nodes, cur, a, s);
                            assert(nodes[cur as int].parent is Some);
                        }
                    }
                    return false;
                },
                Some(p) => {
                    if p == a {
                        proof {
                            assert(reaches_node(nodes, a, a, 0nat));
                            assert(reaches_node(nodes, cur, a, 1nat));
                        }
                        return true;
                    }
                    proof {
                        assert(node_ok(nodes, root, cur as int));
                        assert((p as int) < nodes.len());
                        assert(dist > 0) by {
                            if dist == 0 {
                                assert(cur == root);
                            }
                        }
                        assert forall|s: nat|
                            s > 0 && reaches_node(nodes, cur, a, s) implies exists|s2: nat|
                            s2 > 0 && reaches_node(nodes, p, a, s2) by {
                            assert(reaches_node(nodes, p, a, (s - 1) as nat));
                            assert(s - 1 > 0) by {
                                if s == 1 {
                                    assert(p == a);
                                }
                            }
                        }
                        assert forall|s: nat|
                            s > 0 && reaches_node(nodes, p, a, s) implies exists|s2: nat|
                            s2 > 0 && reaches_node(nodes, cur, a, s2) by {
                            assert(reaches_node(nodes, cur, a, (s + 1) as nat));
                        }
                        dist = (dist - 1) as nat;
                    }
                    cur = p;
                },
            }
        }
    }
}

} // verus!
