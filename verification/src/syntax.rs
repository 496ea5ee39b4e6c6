//! The tree-sitter syntax trees that the analysis reads, and what it assumes of them.
//!
//! A tree is seen as a finite map from node paths (see `order`) to what the
//! analysis and tree-sitter's query engine read of a node: its kind, whether it
//! is named, its byte range in the source text, the field it hangs under and
//! whether it was parsed with the Java grammar.
//! Nodes and cursors are positions (paths) in such a map.

use crate::order::is_prefix;
use tree_sitter::{Node, Query, QueryCursor, QueryError, Tree, TreeCursor};
use vstd::prelude::*;

verus! {

#[verifier::external_type_specification]
#[verifier::external_body]
pub struct ExTree(Tree);

#[verifier::external_type_specification]
#[verifier::external_body]
pub struct ExNode<'tree>(Node<'tree>);

#[verifier::external_type_specification]
#[verifier::external_body]
pub struct ExTreeCursor<'tree>(TreeCursor<'tree>);

#[verifier::external_type_specification]
#[verifier::external_body]
pub struct ExQueryError(QueryError);

/// What the analysis reads of one node: (kind, is named, start byte, end byte,
/// the field name under which it hangs from its parent, whether its tree was
/// parsed with the Java grammar `tree_sitter_java::language()`).
pub type NodeInfo = (Seq<char>, bool, nat, nat, Option<Seq<char>>, bool);

/// The nodes of a syntax tree, by path.
pub type Nodes = Map<Seq<int>, NodeInfo>;

/// The nodes of a parsed tree, by path from its root.
pub uninterp spec fn tree_nodes(tree: Tree) -> Map<Seq<int>, (Seq<char>, bool, nat, nat, Option<Seq<char>>, bool)>;

/// The nodes of the tree that a node belongs to.
pub uninterp spec fn node_nodes(node: Node) -> Map<Seq<int>, (Seq<char>, bool, nat, nat, Option<Seq<char>>, bool)>;

/// The path of a node from the root of its tree.
pub uninterp spec fn node_path(node: Node) -> Seq<int>;

/// The nodes of the tree that a cursor walks.
pub uninterp spec fn cursor_nodes(cursor: TreeCursor) -> Map<Seq<int>, (Seq<char>, bool, nat, nat, Option<Seq<char>>, bool)>;

/// The path of the node a cursor stands on, from the root of its tree.
pub uninterp spec fn cursor_path(cursor: TreeCursor) -> Seq<int>;

/// The path of the node a cursor was started on: it never leaves the subtree
/// of that node.
pub uninterp spec fn cursor_start(cursor: TreeCursor) -> Seq<int>;

/// A map of nodes is shaped as a finite ordered tree: it holds the root, the
/// ancestors of each of its nodes, and the elder siblings of each of its
/// nodes; and the byte range of each node lies within that of its parent.
pub open spec fn wf_nodes(m: Nodes) -> bool {
    &&& m.dom().finite()
    &&& m.contains_key(Seq::<int>::empty())
    &&& forall|p: Seq<int>, k: int| #[trigger]
        m.contains_key(p) && 0 <= k < p.len() ==> 0 <= #[trigger] p[k]
    &&& forall|p: Seq<int>, n: int| #[trigger]
        m.contains_key(p) && 0 <= n <= p.len() ==> m.contains_key(#[trigger] p.take(n))
    &&& forall|p: Seq<int>, j: int| #[trigger]
        m.contains_key(p) && p.len() > 0 && 0 <= j <= p.last() ==> m.contains_key(
            #[trigger] p.drop_last().push(j),
        )
    &&& forall|p: Seq<int>| #[trigger]
        m.contains_key(p) && p.len() > 0 ==> {
            &&& m[p.drop_last()].2 <= m[p].2
            &&& m[p].2 <= m[p].3
            &&& m[p].3 <= m[p.drop_last()].3
        }
}

pub open spec fn kind_of(m: Nodes, p: Seq<int>) -> Seq<char> {
    m[p].0
}

pub open spec fn start_of(m: Nodes, p: Seq<int>) -> nat {
    m[p].2
}

pub open spec fn end_of(m: Nodes, p: Seq<int>) -> nat {
    m[p].3
}

/// The node at `p` was parsed with the Java grammar this library links.
pub open spec fn java_grammar(m: Nodes, p: Seq<int>) -> bool {
    m[p].5
}

/// Every node of the subtree at `p` ends within the first `len` bytes.
pub open spec fn subtree_ends_within(m: Nodes, p: Seq<int>, len: nat) -> bool {
    forall|q: Seq<int>| #[trigger] m.contains_key(q) && is_prefix(p, q) ==> end_of(m, q) <= len
}

/// `n` stands on a node of a well-shaped tree.
pub open spec fn valid_node(n: Node) -> bool {
    wf_nodes(node_nodes(n)) && node_nodes(n).contains_key(node_path(n))
}

/// `c` stands on a node of a well-shaped tree, within the subtree of the node
/// it was started on.
pub open spec fn valid_cursor(c: TreeCursor) -> bool {
    &&& wf_nodes(cursor_nodes(c))
    &&& cursor_nodes(c).contains_key(cursor_path(c))
    &&& cursor_start(c).len() <= cursor_path(c).len()
    &&& cursor_path(c).take(cursor_start(c).len() as int) == cursor_start(c)
}

/// `Tree::walk`: claimed to give a cursor started on the root of `tree`, whose
/// nodes form a well-shaped tree.
#[verifier::external_body]
pub(crate) fn tree_walk<'tree>(tree: &'tree Tree) -> (c: TreeCursor<'tree>)
    ensures
        cursor_nodes(c) == tree_nodes(*tree),
        cursor_path(c) == Seq::<int>::empty(),
        cursor_start(c) == Seq::<int>::empty(),
        valid_cursor(c),
{
    tree.walk()
}

/// `Tree::root_node`: claimed to give the node at the empty path of `tree`.
#[verifier::external_body]
pub(crate) fn tree_root_node<'tree>(tree: &'tree Tree) -> (n: Node<'tree>)
    ensures
        node_nodes(n) == tree_nodes(*tree),
        node_path(n) == Seq::<int>::empty(),
        valid_node(n),
{
    tree.root_node()
}

/// `TreeCursor::goto_first_child`: claimed to move to child 0 of the current
/// node and report true when there is one, else to stay and report false.
#[verifier::external_body]
pub(crate) fn cursor_goto_first_child(c: &mut TreeCursor) -> (moved: bool)
    ensures
        cursor_nodes(*final(c)) == cursor_nodes(*old(c)),
        cursor_start(*final(c)) == cursor_start(*old(c)),
        moved == cursor_nodes(*old(c)).contains_key(cursor_path(*old(c)).push(0)),
        cursor_path(*final(c)) == if moved {
            cursor_path(*old(c)).push(0)
        } else {
            cursor_path(*old(c))
        },
        valid_cursor(*old(c)) ==> valid_cursor(*final(c)),
    no_unwind
{
    c.goto_first_child()
}

/// The path of the next sibling of the node at `p` (not empty).
pub open spec fn next_sibling_path(p: Seq<int>) -> Seq<int> {
    p.drop_last().push(p.last() + 1)
}

/// `TreeCursor::goto_next_sibling`: claimed to move to the next sibling of the
/// current node and report true when there is one, else to stay and report false.
/// On the node the cursor was started on it stays and reports false.
#[verifier::external_body]
pub(crate) fn cursor_goto_next_sibling(c: &mut TreeCursor) -> (moved: bool)
    ensures
        cursor_nodes(*final(c)) == cursor_nodes(*old(c)),
        cursor_start(*final(c)) == cursor_start(*old(c)),
        moved == (cursor_path(*old(c)).len() > cursor_start(*old(c)).len() && cursor_nodes(
            *old(c),
        ).contains_key(
            next_sibling_path(cursor_path(*old(c))),
        )),
        cursor_path(*final(c)) == if moved {
            next_sibling_path(cursor_path(*old(c)))
        } else {
            cursor_path(*old(c))
        },
        valid_cursor(*old(c)) ==> valid_cursor(*final(c)),
    no_unwind
{
    c.goto_next_sibling()
}

/// `TreeCursor::goto_parent`: claimed to move to the parent of the current node
/// and report true, or, on the node the cursor was started on, to stay and
/// report false.
#[verifier::external_body]
pub(crate) fn cursor_goto_parent(c: &mut TreeCursor) -> (moved: bool)
    ensures
        cursor_nodes(*final(c)) == cursor_nodes(*old(c)),
        cursor_start(*final(c)) == cursor_start(*old(c)),
        moved == (cursor_path(*old(c)).len() > cursor_start(*old(c)).len()),
        cursor_path(*final(c)) == if moved {
            cursor_path(*old(c)).drop_last()
        } else {
            cursor_path(*old(c))
        },
        valid_cursor(*old(c)) ==> valid_cursor(*final(c)),
    no_unwind
{
    c.goto_parent()
}

/// `TreeCursor::node`: claimed to give the node the cursor stands on.
#[verifier::external_body]
pub(crate) fn cursor_node<'tree>(c: &TreeCursor<'tree>) -> (n: Node<'tree>)
    ensures
        node_nodes(n) == cursor_nodes(*c),
        node_path(n) == cursor_path(*c),
{
    c.node()
}

/// `Node::child`: claimed to give child `i` of `n` when it exists, else `None`.
/// The index is passed to tree-sitter as a `u32`, so it is kept below 2^32.
#[verifier::external_body]
pub(crate) fn node_child<'tree>(n: &Node<'tree>, i: usize) -> (r: Option<Node<'tree>>)
    requires
        i <= u32::MAX,
    ensures
        r is Some <==> node_nodes(*n).contains_key(node_path(*n).push(i as int)),
        r matches Some(c) ==> node_nodes(c) == node_nodes(*n) && node_path(c) == node_path(
            *n,
        ).push(i as int),
{
    n.child(i)
}

/// `Node::child_count`: claimed to be the number of children of `n`, which
/// tree-sitter counts in a `u32`.
#[verifier::external_body]
pub(crate) fn node_child_count(n: &Node) -> (r: usize)
    requires
        valid_node(*n),
    ensures
        r <= u32::MAX,
        forall|j: int|
            0 <= j < r ==> node_nodes(*n).contains_key(#[trigger] node_path(*n).push(j)),
        !node_nodes(*n).contains_key(node_path(*n).push(r as int)),
{
    n.child_count()
}

/// `Node::kind`: claimed to be the kind recorded for the node.
#[verifier::external_body]
pub(crate) fn node_kind(n: &Node) -> (r: &'static str)
    requires
        valid_node(*n),
    ensures
        r@ == kind_of(node_nodes(*n), node_path(*n)),
{
    n.kind()
}

/// `Node::language` compared with `tree_sitter_java::language()`: claimed to
/// tell whether `n` was parsed with the Java grammar.
#[verifier::external_body]
pub(crate) fn node_is_java(n: &Node) -> (r: bool)
    requires
        valid_node(*n),
    ensures
        r == java_grammar(node_nodes(*n), node_path(*n)),
{
    n.language() == tree_sitter_java::language()
}

/// `Node::start_byte`: claimed to be the start offset recorded for the node.
#[verifier::external_body]
pub(crate) fn node_start_byte(n: &Node) -> (r: usize)
    requires
        valid_node(*n),
    ensures
        r == start_of(node_nodes(*n), node_path(*n)),
{
    n.start_byte()
}

/// `Node::end_byte`: claimed to be the end offset recorded for the node.
#[verifier::external_body]
pub(crate) fn node_end_byte(n: &Node) -> (r: usize)
    requires
        valid_node(*n),
    ensures
        r == end_of(node_nodes(*n), node_path(*n)),
{
    n.end_byte()
}

/// A query result with each capture given by its capture name and node path.
pub open spec fn captures_view(r: Result<Option<Vec<(String, Node)>>, QueryError>) -> Result<
    Option<Seq<(Seq<char>, Seq<int>)>>,
    (),
> {
    match r {
        Err(_) => Err(()),
        Ok(None) => Ok(None),
        Ok(Some(caps)) => Ok(Some(caps@.map_values(|c: (String, Node)| (c.0@, node_path(c.1))))),
    }
}

/// What tree-sitter reports when the query with source `source`, compiled
/// for the Java grammar, is run on the subtree at `path` of the tree `nodes`
/// (parsed with the Java grammar) with text `text`: `Err(())` when the query does not compile; else
/// the first match that passes the query's text predicates, as the list of its
/// captures (capture name and node path, in the order of the match), or `None`
/// when no match does. Which match the query engine finds first, and what the
/// captured nodes are, is left to this name.
pub uninterp spec fn java_first_match_of(
    source: Seq<char>,
    nodes: Map<Seq<int>, (Seq<char>, bool, nat, nat, Option<Seq<char>>, bool)>,
    path: Seq<int>,
    text: Seq<u8>,
) -> Result<Option<Seq<(Seq<char>, Seq<int>)>>, ()>;

/// One run of a query: `Query::new` with `tree_sitter_java::language()`,
/// `QueryCursor::new`, `QueryCursor::matches` on `node` with the bytes `text`,
/// the first `next` of those matches (which skips matches that fail the text
/// predicates), and `Query::capture_names` to name each capture. The query may
/// only be run on a node parsed with the Java grammar, and the text predicates
/// slice `text` by the byte range of captured nodes, so every node of the
/// subtree must end within `text`. Claimed: the
/// result is the one named by `java_first_match_of`, and every captured node
/// is a node of the same tree within the subtree of `node` (the query cursor
/// is reset to `node` and never leaves its subtree).
#[verifier::external_body]
pub(crate) fn java_first_match<'tree>(source: &str, node: &Node<'tree>, text: &[u8]) -> (r: Result<
    Option<Vec<(String, Node<'tree>)>>,
    QueryError,
>)
    requires
        valid_node(*node),
        java_grammar(node_nodes(*node), node_path(*node)),
        subtree_ends_within(node_nodes(*node), node_path(*node), text@.len()),
    ensures
        captures_view(r) == java_first_match_of(
            source@,
            node_nodes(*node),
            node_path(*node),
            text@,
        ),
        r matches Ok(Some(caps)) ==> forall|j: int|
            0 <= j < caps@.len() ==> {
                &&& node_nodes(#[trigger] caps@[j].1) == node_nodes(*node)
                &&& valid_node(caps@[j].1)
                &&& is_prefix(node_path(*node), node_path(caps@[j].1))
            },
{
    let query = Query::new(tree_sitter_java::language(), source)?;
    let mut cursor = QueryCursor::new();
    let first = cursor.matches(&query, *node, text).next();
    let names = query.capture_names();
    Ok(first.map(|m| m.captures.iter().map(|c| (names[c.index as usize].clone(), c.node)).collect()))
}

} // verus!
