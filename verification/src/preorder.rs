//! A pre-order walk over a tree-sitter syntax tree, driven by a tree cursor.
use crate::cst::TreeSitterCST;
use crate::order::{
    agree, differs_at, is_prefix, lemma_precedes_asymmetric, lemma_precedes_irreflexive,
    lemma_precedes_transitive, precedes,
};
use crate::syntax::{
    cursor_goto_first_child, cursor_goto_next_sibling, cursor_goto_parent, cursor_node,
    cursor_nodes, cursor_path, cursor_start, next_sibling_path, node_nodes, node_path,
    tree_nodes, tree_walk, valid_cursor, valid_node, wf_nodes, Nodes,
};
use tree_sitter::{Node, Tree, TreeCursor};
use vstd::prelude::*;

verus! {

/// What the walk does next from the node it stands on: go down into its
/// children, go on to its next sibling, or go back up to its parent.
#[derive(PartialEq, Eq, Structural)]
pub enum VisitState {
    Down,
    Next,
    Up,
}

/// The nodes of `m` that come after `p` in document order.
pub open spec fn after(m: Nodes, p: Seq<int>) -> Set<Seq<int>> {
    m.dom().filter(|r: Seq<int>| precedes(p, r))
}

/// The nodes of `m` that come after the whole subtree of `p`.
pub open spec fn after_subtree(m: Nodes, p: Seq<int>) -> Set<Seq<int>> {
    m.dom().filter(|r: Seq<int>| precedes(p, r) && !is_prefix(p, r))
}

/// The nodes after `p` (in state `st`) in document order, in the whole tree.
pub open spec fn ahead(m: Nodes, p: Seq<int>, st: VisitState) -> Set<Seq<int>> {
    match st {
        VisitState::Down => after(m, p),
        VisitState::Next => after_subtree(m, p),
        VisitState::Up => if p.len() == 0 {
            Set::empty()
        } else {
            after_subtree(m, p.drop_last())
        },
    }
}

/// The nodes a walk started on `s` and standing on `p` in state `st` has yet
/// to yield: those ahead of it that lie in the subtree of `s`.
pub open spec fn pending(m: Nodes, s: Seq<int>, p: Seq<int>, st: VisitState) -> Set<Seq<int>> {
    ahead(m, p, st).filter(|r: Seq<int>| is_prefix(s, r))
}

/// `q` is the first node of `s` in document order.
pub open spec fn is_first(s: Set<Seq<int>>, q: Seq<int>) -> bool {
    &&& s.contains(q)
    &&& forall|r: Seq<int>| s.contains(r) && r != q ==> precedes(q, r)
}

/// `ns` lists the nodes of `s`, all in the tree `m`, each once, in document order.
pub open spec fn lists_in_order(ns: Seq<Node>, m: Nodes, s: Set<Seq<int>>) -> bool {
    &&& forall|j: int| 0 <= j < ns.len() ==> node_nodes(#[trigger] ns[j]) == m
    &&& forall|j: int| 0 <= j < ns.len() ==> s.contains(node_path(#[trigger] ns[j]))
    &&& forall|j: int, k: int|
        0 <= j < k < ns.len() ==> precedes(node_path(#[trigger] ns[j]), node_path(#[trigger] ns[k]))
    &&& forall|q: Seq<int>|
        s.contains(q) ==> exists|j: int| 0 <= j < ns.len() && node_path(#[trigger] ns[j]) == q
}

/// A walk that yields the nodes of a subtree in pre-order (document order),
/// starting after the node it was started on (the root of the tree, for `new`).
pub struct PreOrder<'tree> {
    cursor: TreeCursor<'tree>,
    state: VisitState,
}

spec fn rank(st: VisitState) -> int {
    match st {
        VisitState::Down => 2,
        VisitState::Next => 1,
        VisitState::Up => 0,
    }
}

impl<'tree> PreOrder<'tree> {
    #[verifier::type_invariant]
    spec fn inv(self) -> bool {
        valid_cursor(self.cursor)
    }

    /// The path of the node the walk was started on.
    pub closed spec fn start(&self) -> Seq<int> {
        cursor_start(self.cursor)
    }

    /// The nodes of the tree being walked.
    pub closed spec fn nodes(&self) -> Nodes {
        cursor_nodes(self.cursor)
    }

    /// The path of the node the walk stands on.
    pub closed spec fn path(&self) -> Seq<int> {
        cursor_path(self.cursor)
    }

    pub closed spec fn state(&self) -> VisitState {
        self.state
    }

    /// The nodes the walk has yet to yield.
    pub open spec fn pending(&self) -> Set<Seq<int>> {
        pending(self.nodes(), self.start(), self.path(), self.state())
    }

    /// A walk standing on the root of `tree`, about to go down.
    pub fn new(tree: &'tree Tree) -> (r: Self)
        ensures
            r.nodes() == tree_nodes(*tree),
            r.path() == Seq::<int>::empty(),
            r.start() == Seq::<int>::empty(),
            r.state() == VisitState::Down,
            wf_nodes(tree_nodes(*tree)),
    {
        let cursor = tree_walk(tree);
        let state = VisitState::Down;
        Self { cursor, state }
    }

    /// The node the walk stands on.
    pub fn node(&self) -> (n: Node<'tree>)
        ensures
            node_nodes(n) == self.nodes(),
            node_path(n) == self.path(),
            valid_node(n),
    {
        proof {
            use_type_invariant(self);
        }
        cursor_node(&self.cursor)
    }

    /// Yields the first pending node in document order and stands on it, or
    /// `None` when no node is pending (and then stays exhausted).
    pub fn next(&mut self) -> (r: Option<Node<'tree>>)
        ensures
            final(self).nodes() == old(self).nodes(),
            wf_nodes(old(self).nodes()),
            match r {
                Some(n) => {
                    &&& is_first(old(self).pending(), node_path(n))
                    &&& node_nodes(n) == old(self).nodes()
                    &&& final(self).path() == node_path(n)
                    &&& final(self).state() == VisitState::Down
                },
                None => {
                    &&& old(self).pending() == Set::<Seq<int>>::empty()
                    &&& final(self).path() == old(self).start()
                    &&& final(self).state() == VisitState::Up
                },
            },
            final(self).start() == old(self).start(),
    {
        proof {
            use_type_invariant(&*self);
        }
        let ghost m = self.nodes();
        let ghost st = self.start();
        let ghost goal = self.pending();
        loop
            invariant
                self.nodes() == m,
                self.start() == st,
                st == old(self).start(),
                m == old(self).nodes(),
                goal == old(self).pending(),
                self.pending() == goal,
                valid_cursor(self.cursor),
                wf_nodes(m),
            decreases 3 * self.path().len() + rank(self.state()),
        {
            proof {
                use_type_invariant(&*self);
            }
            let ghost p = self.path();
            proof {
                lemma_take_is_prefix(st, p);
            }
            if self.state == VisitState::Down {
                if cursor_goto_first_child(&mut self.cursor) {
                    proof {
                        lemma_first_child_is_first(m, p);
                        lemma_extension_in_subtree(st, p, p.push(0));
                        lemma_first_in_subtree(m, st, p, VisitState::Down, p.push(0));
                    }
                    self.state = VisitState::Down;
                    return Some(cursor_node(&self.cursor));
                } else {
                    proof {
                        lemma_leaf_pending(m, p);
                    }
                    self.state = VisitState::Next;
                }
            } else if self.state == VisitState::Next {
                if cursor_goto_next_sibling(&mut self.cursor) {
                    proof {
                        lemma_next_sibling_is_first(m, p);
                        lemma_extension_in_subtree(st, p, next_sibling_path(p));
                        lemma_first_in_subtree(m, st, p, VisitState::Next, next_sibling_path(p));
                    }
                    self.state = VisitState::Down;
                    return Some(cursor_node(&self.cursor));
                } else {
                    proof {
                        if p.len() > st.len() {
                            lemma_last_sibling_pending(m, p);
                        } else {
                            lemma_start_exhausted(m, st, p);
                        }
                    }
                    self.state = VisitState::Up;
                }
            } else {
                if cursor_goto_parent(&mut self.cursor) {
                    self.state = VisitState::Next;
                } else {
                    proof {
                        lemma_start_exhausted(m, st, p);
                    }
                    return None;
                }
            }
        }
    }

    /// Yields all pending nodes, in document order. On a fresh walk these are
    /// all the nodes of the tree but its root. The text `cst` is not read.
    pub fn visit(&mut self, cst: TreeSitterCST) -> (nodes: Vec<Node<'tree>>)
        ensures
            final(self).nodes() == old(self).nodes(),
            lists_in_order(nodes@, old(self).nodes(), old(self).pending()),
            final(self).pending() == Set::<Seq<int>>::empty(),
    {
        self.collect_pending()
    }

    /// Yields all pending nodes, in document order.
    pub(crate) fn collect_pending(&mut self) -> (nodes: Vec<Node<'tree>>)
        ensures
            final(self).nodes() == old(self).nodes(),
            wf_nodes(old(self).nodes()),
            lists_in_order(nodes@, old(self).nodes(), old(self).pending()),
            final(self).pending() == Set::<Seq<int>>::empty(),
    {
        let mut nodes: Vec<Node<'tree>> = Vec::new();
        let ghost m = self.nodes();
        let ghost all = self.pending();
        let ghost s = self.start();
        proof {
            use_type_invariant(&*self);
            lemma_pending_finite(m, s, self.path(), self.state());
        }
        loop
            invariant
                self.nodes() == m,
                self.start() == s,
                m == old(self).nodes(),
                all == old(self).pending(),
                wf_nodes(m),
                self.pending().finite(),
                self.pending().subset_of(all),
                forall|j: int| 0 <= j < nodes@.len() ==> node_nodes(#[trigger] nodes@[j]) == m,
                forall|j: int| 0 <= j < nodes@.len() ==> all.contains(node_path(#[trigger] nodes@[j])),
                forall|j: int, k: int|
                    0 <= j < k < nodes@.len() ==> precedes(
                        node_path(#[trigger] nodes@[j]),
                        node_path(#[trigger] nodes@[k]),
                    ),
                forall|q: Seq<int>|
                    all.contains(q) ==> self.pending().contains(q) || exists|j: int|
                        0 <= j < nodes@.len() && node_path(#[trigger] nodes@[j]) == q,
                forall|j: int, q: Seq<int>|
                    #![trigger nodes@[j], self.pending().contains(q)]
                    0 <= j < nodes@.len() && self.pending().contains(q) ==> precedes(
                        node_path(nodes@[j]),
                        q,
                    ),
            ensures
                self.pending() == Set::<Seq<int>>::empty(),
            decreases self.pending().len(),
        {
            let ghost before = self.pending();
            let ghost p = self.path();
            let ghost st = self.state();
            match self.next() {
                Some(node) => {
                    proof {
                        lemma_pending_after_first(m, s, p, st, node_path(node));
                        vstd::set::axiom_set_remove_len(before, node_path(node));
                        vstd::set::axiom_set_remove_finite(before, node_path(node));
                    }
                    let ghost old_nodes = nodes@;
                    nodes.push(node);
                    proof {
                        assert forall|q: Seq<int>| all.contains(q) implies self.pending().contains(
                            q,
                        ) || exists|j: int|
                            0 <= j < nodes@.len() && node_path(#[trigger] nodes@[j]) == q by {
                            if !before.contains(q) {
                                let j = choose|j: int|
                                    0 <= j < old_nodes.len() && node_path(
                                        #[trigger] old_nodes[j],
                                    ) == q;
                                assert(nodes@[j] == old_nodes[j]);
                            } else if q == node_path(node) {
                                assert(nodes@[nodes@.len() - 1] == node);
                            }
                        }
                        assert forall|j: int, k: int|
                            0 <= j < k < nodes@.len() implies precedes(
                            node_path(#[trigger] nodes@[j]),
                            node_path(#[trigger] nodes@[k]),
                        ) by {
                            if k < nodes@.len() - 1 {
                                assert(nodes@[j] == old_nodes[j]);
                                assert(nodes@[k] == old_nodes[k]);
                            } else {
                                assert(nodes@[j] == old_nodes[j]);
                            }
                        }
                        assert forall|j: int, q: Seq<int>|
                            #![trigger nodes@[j], self.pending().contains(q)]
                            0 <= j < nodes@.len() && self.pending().contains(q) implies precedes(
                            node_path(nodes@[j]),
                            q,
                        ) by {
                            if j < nodes@.len() - 1 {
                                assert(nodes@[j] == old_nodes[j]);
                            }
                        }
                    }
                },
                None => {
                    break ;
                },
            }
        }
        nodes
    }
}

/// A path whose first positions are those of `s` lies in the subtree of `s`.
proof fn lemma_take_is_prefix(s: Seq<int>, p: Seq<int>)
    requires
        s.len() <= p.len(),
        p.take(s.len() as int) == s,
    ensures
        is_prefix(s, p),
{
    assert forall|k: int| 0 <= k < s.len() implies #[trigger] s[k] == p[k] by {
        assert(p.take(s.len() as int)[k] == p[k]);
    }
}

/// A path that keeps the first positions of `p`, where `p` lies in the subtree
/// of `s` below `s` itself or is one step longer, lies in that subtree too.
proof fn lemma_extension_in_subtree(s: Seq<int>, p: Seq<int>, q: Seq<int>)
    requires
        is_prefix(s, p),
        s.len() <= q.len(),
        forall|k: int| 0 <= k < s.len() ==> p[k] == q[k],
    ensures
        is_prefix(s, q),
{
}

/// The first node ahead that lies in the subtree of the start is the first
/// pending node.
proof fn lemma_first_in_subtree(m: Nodes, s: Seq<int>, p: Seq<int>, st: VisitState, q: Seq<int>)
    requires
        is_first(ahead(m, p, st), q),
        is_prefix(s, q),
    ensures
        is_first(pending(m, s, p, st), q),
{
}

/// A walk standing on its start node with its subtree done has nothing pending.
proof fn lemma_start_exhausted(m: Nodes, s: Seq<int>, p: Seq<int>)
    requires
        is_prefix(s, p),
        p.len() <= s.len(),
    ensures
        pending(m, s, p, VisitState::Next) == Set::<Seq<int>>::empty(),
        pending(m, s, p, VisitState::Up) == Set::<Seq<int>>::empty(),
{
    assert(p =~= s);
    assert forall|r: Seq<int>| !pending(m, s, p, VisitState::Next).contains(r) by {}
    assert forall|r: Seq<int>| !pending(m, s, p, VisitState::Up).contains(r) by {
        if p.len() > 0 && pending(m, s, p, VisitState::Up).contains(r) {
            let q = p.drop_last();
            assert(is_prefix(q, r));
        }
    }
    assert(pending(m, s, p, VisitState::Next) =~= Set::<Seq<int>>::empty());
    assert(pending(m, s, p, VisitState::Up) =~= Set::<Seq<int>>::empty());
}

/// The nodes pending in any state form a finite set.
pub proof fn lemma_pending_finite(m: Nodes, s: Seq<int>, p: Seq<int>, st: VisitState)
    requires
        wf_nodes(m),
    ensures
        pending(m, s, p, st).finite(),
{
    match st {
        VisitState::Down => {
            m.dom().lemma_len_filter(|r: Seq<int>| precedes(p, r));
        },
        VisitState::Next => {
            m.dom().lemma_len_filter(|r: Seq<int>| precedes(p, r) && !is_prefix(p, r));
        },
        VisitState::Up => {
            if p.len() > 0 {
                let q = p.drop_last();
                m.dom().lemma_len_filter(|r: Seq<int>| precedes(q, r) && !is_prefix(q, r));
            }
        },
    }
    ahead(m, p, st).lemma_len_filter(|r: Seq<int>| is_prefix(s, r));
}

/// A node with a first child is followed, in document order, by that child.
proof fn lemma_first_child_is_first(m: Nodes, p: Seq<int>)
    requires
        wf_nodes(m),
        m.contains_key(p),
        m.contains_key(p.push(0)),
    ensures
        is_first(after(m, p), p.push(0)),
{
    let c = p.push(0);
    assert(agree(p, c, p.len() as int));
    assert(after(m, p).contains(c));
    assert forall|s: Seq<int>| after(m, p).contains(s) && s != c implies precedes(c, s) by {
        assert(m.contains_key(s) && precedes(p, s));
        if is_prefix(p, s) && p.len() < s.len() {
            assert(0 <= s[p.len() as int]);
            if s[p.len() as int] == 0 {
                assert(agree(c, s, c.len() as int));
                if s.len() == c.len() {
                    assert(s =~= c);
                }
            } else {
                assert(differs_at(c, s, p.len() as int));
            }
        } else {
            let i = choose|i: int| #[trigger] differs_at(p, s, i);
            assert(differs_at(c, s, i));
        }
    }
}

/// A node without children is followed only by nodes after its subtree.
proof fn lemma_leaf_pending(m: Nodes, p: Seq<int>)
    requires
        wf_nodes(m),
        m.contains_key(p),
        !m.contains_key(p.push(0)),
    ensures
        after(m, p) == after_subtree(m, p),
{
    assert forall|s: Seq<int>| after(m, p).contains(s) implies !is_prefix(p, s) by {
        if is_prefix(p, s) {
            lemma_precedes_irreflexive(p);
            assert(s != p);
            if s.len() == p.len() {
                assert(s =~= p);
            }
            let n: int = p.len() as int + 1;
            let t = s.take(n);
            assert(m.contains_key(t));
            assert(t.len() > 0 && 0 <= 0 <= t.last());
            assert(m.contains_key(t.drop_last().push(0)));
            assert(t.drop_last().push(0) =~= p.push(0));
        }
    }
    assert(after(m, p) =~= after_subtree(m, p));
}

/// A node with a next sibling is followed, after its own subtree, by that sibling.
proof fn lemma_next_sibling_is_first(m: Nodes, p: Seq<int>)
    requires
        wf_nodes(m),
        m.contains_key(p),
        p.len() > 0,
        m.contains_key(next_sibling_path(p)),
    ensures
        is_first(after_subtree(m, p), next_sibling_path(p)),
{
    let n = p.len() - 1;
    let sib = next_sibling_path(p);
    assert(differs_at(p, sib, n));
    assert(sib[n] != p[n]);
    assert(after_subtree(m, p).contains(sib));
    assert forall|r: Seq<int>| after_subtree(m, p).contains(r) && r != sib implies precedes(
        sib,
        r,
    ) by {
        assert(precedes(p, r) && !is_prefix(p, r));
        let i = choose|i: int| #[trigger] differs_at(p, r, i);
        if i < n {
            assert(differs_at(sib, r, i));
        } else if r[n] > sib[n] {
            assert(differs_at(sib, r, n));
        } else {
            assert(agree(sib, r, sib.len() as int));
            if r.len() == sib.len() {
                assert(r =~= sib);
            }
        }
    }
}

/// A last sibling (or the root) is followed only by nodes after its parent's subtree.
proof fn lemma_last_sibling_pending(m: Nodes, p: Seq<int>)
    requires
        wf_nodes(m),
        m.contains_key(p),
        !(p.len() > 0 && m.contains_key(next_sibling_path(p))),
    ensures
        after_subtree(m, p) == ahead(m, p, VisitState::Up),
{
    if p.len() == 0 {
        assert forall|r: Seq<int>| !after_subtree(m, p).contains(r) by {
            assert(is_prefix(p, r));
        }
        assert(after_subtree(m, p) =~= Set::<Seq<int>>::empty());
    } else {
        let q = p.drop_last();
        let n = q.len() as int;
        assert forall|r: Seq<int>| after_subtree(m, p).contains(r) implies after_subtree(
            m,
            q,
        ).contains(r) by {
            let i = choose|i: int| #[trigger] differs_at(p, r, i);
            if i < n {
                assert(differs_at(q, r, i));
                assert(r[i] != q[i]);
            } else {
                let t = r.take(n + 1);
                assert(m.contains_key(t));
                assert(0 <= p.last() + 1 <= t.last());
                assert(m.contains_key(t.drop_last().push(p.last() + 1)));
                assert(t.drop_last().push(p.last() + 1) =~= next_sibling_path(p));
            }
        }
        assert forall|r: Seq<int>| after_subtree(m, q).contains(r) implies after_subtree(
            m,
            p,
        ).contains(r) by {
            assert forall|k: int| 0 <= k < n implies #[trigger] p[k] == q[k] by {}
            assert(agree(p, q, n));
            if is_prefix(q, r) && q.len() < r.len() {
            } else {
                let i = choose|i: int| #[trigger] differs_at(q, r, i);
                assert(differs_at(p, r, i));
                assert(r[i] != p[i]);
            }
        }
        assert(after_subtree(m, p) =~= after_subtree(m, q));
    }
}

/// Once a walk has yielded the first pending node `q`, the nodes still pending
/// are the earlier pending ones but `q`.
pub proof fn lemma_pending_after_first(
    m: Nodes,
    s: Seq<int>,
    p: Seq<int>,
    st: VisitState,
    q: Seq<int>,
)
    requires
        is_first(pending(m, s, p, st), q),
    ensures
        pending(m, s, q, VisitState::Down) == pending(m, s, p, st).remove(q),
{
    let a = ahead(m, p, st);
    lemma_precedes_irreflexive(q);
    assert forall|r: Seq<int>| #[trigger] after(m, q).contains(r) implies a.contains(r) by {
        match st {
            VisitState::Down => {
                lemma_precedes_transitive(p, q, r);
            },
            VisitState::Next => {
                lemma_precedes_transitive(p, q, r);
                lemma_outside_subtree_stays_outside(p, q, r);
            },
            VisitState::Up => {
                let b = p.drop_last();
                lemma_precedes_transitive(b, q, r);
                lemma_outside_subtree_stays_outside(b, q, r);
            },
        }
    }
    assert(pending(m, s, q, VisitState::Down) =~= pending(m, s, p, st).remove(q));
}

/// A node after the subtree of `a` is followed only by nodes after that subtree.
proof fn lemma_outside_subtree_stays_outside(a: Seq<int>, q: Seq<int>, r: Seq<int>)
    requires
        precedes(a, q),
        !is_prefix(a, q),
        precedes(q, r),
    ensures
        !is_prefix(a, r),
{
    let i = choose|i: int| #[trigger] differs_at(a, q, i);
    if is_prefix(q, r) && q.len() < r.len() {
        assert(r[i] == q[i]);
    } else {
        let j = choose|j: int| #[trigger] differs_at(q, r, j);
        if j < i {
            assert(a[j] == q[j]);
        } else if j > i {
            assert(r[i] == q[i]);
        }
    }
}

/// A fresh walk has every node of the tree but the root pending.
pub proof fn lemma_fresh_walk_pending(m: Nodes)
    requires
        wf_nodes(m),
    ensures
        pending(m, Seq::<int>::empty(), Seq::<int>::empty(), VisitState::Down) == m.dom().remove(
            Seq::<int>::empty(),
        ),
{
    let e = Seq::<int>::empty();
    assert forall|r: Seq<int>| m.contains_key(r) && r != e implies precedes(e, r) by {
        assert(agree(e, r, 0));
        assert(r.len() > 0) by {
            if r.len() == 0 {
                assert(r =~= e);
            }
        }
    }
    assert forall|r: Seq<int>| #[trigger] is_prefix(e, r) by {}
    lemma_precedes_irreflexive(e);
    assert(pending(m, e, e, VisitState::Down) =~= m.dom().remove(e));
}

/// A walk back on its start node with nothing below left to go through (where
/// `next` leaves it when it yields `None`) has nothing pending: it stays
/// exhausted.
pub proof fn lemma_exhausted_walk(m: Nodes, s: Seq<int>)
    ensures
        pending(m, s, s, VisitState::Up) == Set::<Seq<int>>::empty(),
{
    lemma_start_exhausted(m, s, s);
}

/// The paths of the nodes of `ns`.
pub open spec fn paths_of(ns: Seq<Node>) -> Seq<Seq<int>> {
    ns.map_values(|n: Node| node_path(n))
}

/// Two listings in document order of the same nodes of the same tree name the
/// same nodes in the same order: what a walk yields (`visit`, `next`) is fixed
/// by the tree and the walk's position alone, whatever else it is handed.
pub proof fn lemma_listing_unique(ns1: Seq<Node>, ns2: Seq<Node>, m: Nodes, s: Set<Seq<int>>)
    requires
        lists_in_order(ns1, m, s),
        lists_in_order(ns2, m, s),
    ensures
        ns1.len() == ns2.len(),
        paths_of(ns1) == paths_of(ns2),
        forall|j: int| 0 <= j < ns1.len() ==> node_nodes(#[trigger] ns1[j]) == node_nodes(ns2[j]),
{
    let a = paths_of(ns1);
    let b = paths_of(ns2);
    assert forall|x: Seq<int>| a.contains(x) <==> b.contains(x) by {
        if a.contains(x) {
            let i = choose|i: int| 0 <= i < a.len() && a[i] == x;
            assert(s.contains(node_path(ns1[i])));
            let j = choose|j: int| 0 <= j < ns2.len() && node_path(#[trigger] ns2[j]) == x;
            assert(b[j] == x);
        }
        if b.contains(x) {
            let i = choose|i: int| 0 <= i < b.len() && b[i] == x;
            assert(s.contains(node_path(ns2[i])));
            let j = choose|j: int| 0 <= j < ns1.len() && node_path(#[trigger] ns1[j]) == x;
            assert(a[j] == x);
        }
    }
    assert forall|i: int, j: int| 0 <= i < j < a.len() implies precedes(a[i], a[j]) by {
        assert(precedes(node_path(ns1[i]), node_path(ns1[j])));
    }
    assert forall|i: int, j: int| 0 <= i < j < b.len() implies precedes(b[i], b[j]) by {
        assert(precedes(node_path(ns2[i]), node_path(ns2[j])));
    }
    lemma_sorted_paths_unique(a, b);
    assert(a.len() == ns1.len() && b.len() == ns2.len());
}

/// Two lists of paths, each in strict document order, that hold the same
/// paths are equal.
proof fn lemma_sorted_paths_unique(a: Seq<Seq<int>>, b: Seq<Seq<int>>)
    requires
        forall|i: int, j: int| 0 <= i < j < a.len() ==> precedes(#[trigger] a[i], #[trigger] a[j]),
        forall|i: int, j: int| 0 <= i < j < b.len() ==> precedes(#[trigger] b[i], #[trigger] b[j]),
        forall|x: Seq<int>| a.contains(x) <==> b.contains(x),
    ensures
        a == b,
    decreases a.len(),
{
    if a.len() == 0 {
        if b.len() > 0 {
            assert(b.contains(b[0]));
        }
        assert(a =~= b);
    } else if b.len() == 0 {
        assert(a.contains(a[0]));
    } else {
        assert(a.contains(a[0]));
        assert(b.contains(b[0]));
        let k = choose|k: int| 0 <= k < b.len() && b[k] == a[0];
        let l = choose|l: int| 0 <= l < a.len() && a[l] == b[0];
        if k > 0 {
            lemma_precedes_irreflexive(b[0]);
            if l > 0 {
                assert(precedes(a[0], a[l]));
                assert(precedes(b[0], b[k]));
                lemma_precedes_asymmetric(a[0], b[0]);
            }
        }
        assert(a[0] == b[0]);
        let a1 = a.drop_first();
        let b1 = b.drop_first();
        assert forall|x: Seq<int>| a1.contains(x) implies b1.contains(x) by {
            let i = choose|i: int| 0 <= i < a1.len() && a1[i] == x;
            assert(a[i + 1] == x);
            assert(precedes(a[0], a[i + 1]));
            lemma_precedes_irreflexive(x);
            assert(a.contains(x));
            assert(b.contains(x));
            let j = choose|j: int| 0 <= j < b.len() && b[j] == x;
            assert(j != 0);
            assert(b1[j - 1] == x);
        }
        assert forall|x: Seq<int>| b1.contains(x) implies a1.contains(x) by {
            let i = choose|i: int| 0 <= i < b1.len() && b1[i] == x;
            assert(b[i + 1] == x);
            assert(precedes(b[0], b[i + 1]));
            lemma_precedes_irreflexive(x);
            assert(b.contains(x));
            assert(a.contains(x));
            let j = choose|j: int| 0 <= j < a.len() && a[j] == x;
            assert(j != 0);
            assert(a1[j - 1] == x);
        }
        assert forall|i: int, j: int| 0 <= i < j < a1.len() implies precedes(
            #[trigger] a1[i],
            #[trigger] a1[j],
        ) by {
            assert(precedes(a[i + 1], a[j + 1]));
        }
        assert forall|i: int, j: int| 0 <= i < j < b1.len() implies precedes(
            #[trigger] b1[i],
            #[trigger] b1[j],
        ) by {
            assert(precedes(b[i + 1], b[j + 1]));
        }
        lemma_sorted_paths_unique(a1, b1);
        assert(a =~= b1.insert(0, b[0]));
        assert(b =~= b1.insert(0, b[0]));
    }
}

/// `ns` and `pend` record a run of `next` calls on a walk of the tree `m`: call
/// `i` yields `ns[i]`, the first node pending before it (`pend[i]`), after
/// which `pend[i + 1]` is pending: `pend[i]` without that node.
pub open spec fn next_run(m: Nodes, ns: Seq<Node>, pend: Seq<Set<Seq<int>>>) -> bool {
    &&& pend.len() == ns.len() + 1
    &&& forall|i: int|
        0 <= i < ns.len() ==> {
            &&& node_nodes(#[trigger] ns[i]) == m
            &&& is_first(pend[i], node_path(ns[i]))
            &&& pend[i + 1] == pend[i].remove(node_path(ns[i]))
        }
}

/// Successive `next` calls on a fresh walk, up to the call that yields `None`
/// (when nothing is pending), yield every node of the tree but the root, each
/// once, in pre-order: as many nodes as the tree has, less one.
pub proof fn lemma_next_run_on_fresh_walk(m: Nodes, ns: Seq<Node>, pend: Seq<Set<Seq<int>>>)
    requires
        wf_nodes(m),
        next_run(m, ns, pend),
        pend[0] == pending(m, Seq::<int>::empty(), Seq::<int>::empty(), VisitState::Down),
        pend[ns.len() as int] == Set::<Seq<int>>::empty(),
    ensures
        lists_in_order(ns, m, m.dom().remove(Seq::<int>::empty())),
        ns.len() + 1 == m.dom().len(),
{
    let all = m.dom().remove(Seq::<int>::empty());
    lemma_fresh_walk_pending(m);
    let k = ns.len() as int;
    lemma_next_run_prefix(m, ns, pend, k);
    assert forall|q: Seq<int>| all.contains(q) implies exists|j: int|
        0 <= j < ns.len() && node_path(#[trigger] ns[j]) == q by {
        assert(pend[0].contains(q));
    }
    assert(lists_in_order(ns, m, all));
    let ps = paths_of(ns);
    assert(ps.no_duplicates()) by {
        assert forall|i: int, j: int| 0 <= i < ps.len() && 0 <= j < ps.len() && i != j implies ps[i]
            != ps[j] by {
            lemma_precedes_irreflexive(ps[i]);
            if i < j {
                assert(precedes(node_path(ns[i]), node_path(ns[j])));
            } else {
                assert(precedes(node_path(ns[j]), node_path(ns[i])));
            }
        }
    }
    ps.unique_seq_to_set();
    assert(ps.to_set() =~= all) by {
        assert forall|q: Seq<int>| all.contains(q) implies ps.to_set().contains(q) by {
            let j = choose|j: int| 0 <= j < ns.len() && node_path(#[trigger] ns[j]) == q;
            assert(ps[j] == q);
        }
        assert forall|q: Seq<int>| ps.to_set().contains(q) implies all.contains(q) by {
            let j = choose|j: int| 0 <= j < ps.len() && ps[j] == q;
            assert(all.contains(node_path(ns[j])));
        }
    }
    assert(m.dom().contains(Seq::<int>::empty()));
}

/// After `i` calls of a run started on pending set `pend[0]`, the nodes
/// yielded are in document order, each was pending at the start, each comes
/// before every node still pending, and together with those still pending they
/// make up the nodes pending at the start.
proof fn lemma_next_run_prefix(m: Nodes, ns: Seq<Node>, pend: Seq<Set<Seq<int>>>, i: int)
    requires
        next_run(m, ns, pend),
        0 <= i <= ns.len(),
    ensures
        pend[i].subset_of(pend[0]),
        forall|j: int| 0 <= j < i ==> pend[0].contains(node_path(#[trigger] ns[j])),
        forall|j: int, l: int|
            0 <= j < l < i ==> precedes(node_path(#[trigger] ns[j]), node_path(#[trigger] ns[l])),
        forall|j: int, q: Seq<int>|
            0 <= j < i && #[trigger] pend[i].contains(q) ==> precedes(node_path(#[trigger] ns[j]), q),
        forall|q: Seq<int>|
            #[trigger] pend[0].contains(q) ==> pend[i].contains(q) || exists|j: int|
                0 <= j < i && node_path(#[trigger] ns[j]) == q,
    decreases i,
{
    if i > 0 {
        let h = i - 1;
        lemma_next_run_prefix(m, ns, pend, h);
        let q0 = node_path(ns[h]);
        assert(is_first(pend[h], q0));
        assert(pend[i] == pend[h].remove(q0));
        assert forall|j: int, l: int|
            0 <= j < l < i implies precedes(node_path(#[trigger] ns[j]), node_path(#[trigger] ns[l])) by {
            if l == h {
                assert(pend[h].contains(q0));
            }
        }
        assert forall|j: int, q: Seq<int>|
            0 <= j < i && #[trigger] pend[i].contains(q) implies precedes(
            node_path(#[trigger] ns[j]),
            q,
        ) by {
            assert(pend[h].contains(q));
        }
        assert forall|q: Seq<int>| #[trigger] pend[0].contains(q) implies pend[i].contains(q)
            || exists|j: int| 0 <= j < i && node_path(#[trigger] ns[j]) == q by {
            if !pend[h].contains(q) {
                let j = choose|j: int| 0 <= j < h && node_path(#[trigger] ns[j]) == q;
            } else if q == q0 {
                assert(node_path(ns[h]) == q);
            }
        }
    }
}

} // verus!
