//! A syntax tree together with the source text it was parsed from.
use crate::preorder::{lemma_fresh_walk_pending, PreOrder};
use crate::syntax::{
    end_of, node_end_byte, node_nodes, node_path, node_start_byte, start_of, tree_nodes,
    tree_root_node, valid_node, wf_nodes, Nodes,
};
use tree_sitter::{Node, Tree};
use vstd::prelude::*;
use vstd::string::StringSliceAdditionalSpecFns;
use vstd::utf8::{decode_utf8, is_char_boundary};

verus! {

/// The byte range `start..end` lies within `bytes` and starts and ends on
/// character boundaries.
pub open spec fn range_fits(bytes: Seq<u8>, start: nat, end: nat) -> bool {
    &&& start <= end <= bytes.len()
    &&& is_char_boundary(bytes, start as int)
    &&& is_char_boundary(bytes, end as int)
}

/// Every node of `m` covers a range of whole characters of `bytes`.
pub open spec fn ranges_fit(m: Nodes, bytes: Seq<u8>) -> bool {
    forall|p: Seq<int>| #[trigger]
        m.contains_key(p) ==> range_fits(bytes, start_of(m, p), end_of(m, p))
}

/// The source text of the node at `p`.
pub open spec fn code_of(bytes: Seq<u8>, m: Nodes, p: Seq<int>) -> Seq<char> {
    decode_utf8(bytes.subrange(start_of(m, p) as int, end_of(m, p) as int))
}

/// A syntax tree and the text it stands for: every node covers whole
/// characters of the text.
pub struct TreeSitterCST<'tree, 'text> {
    cst: &'tree Tree,
    code: &'text str,
}

impl<'tree, 'text> TreeSitterCST<'tree, 'text> {
    /// The tree is well shaped and each of its nodes covers whole characters of the text.
    #[verifier::type_invariant]
    pub open spec fn inv(self) -> bool {
        &&& wf_nodes(self.nodes())
        &&& ranges_fit(self.nodes(), self.text())
    }

    /// The nodes of the tree.
    pub closed spec fn nodes(&self) -> Nodes {
        tree_nodes(*self.cst)
    }

    /// The UTF-8 bytes of the text.
    pub closed spec fn text(&self) -> Seq<u8> {
        self.code.spec_bytes()
    }

    /// The source text of the node at `p`.
    pub open spec fn node_code(&self, p: Seq<int>) -> Seq<char> {
        code_of(self.text(), self.nodes(), p)
    }

    /// The syntax tree.
    pub fn cst(&self) -> (r: &'tree Tree)
        ensures
            tree_nodes(*r) == self.nodes(),
    {
        self.cst
    }

    /// The source text.
    pub fn code(&self) -> (r: &'text str)
        ensures
            r.spec_bytes() == self.text(),
    {
        self.code
    }

    /// Pairs a tree with its text, when every node of the tree covers whole
    /// characters of the text.
    pub fn new(cst: &'tree Tree, code: &'text str) -> (r: Option<Self>)
        ensures
            r is Some <==> ranges_fit(tree_nodes(*cst), code.spec_bytes()),
            r matches Some(c) ==> c.nodes() == tree_nodes(*cst) && c.text() == code.spec_bytes(),
    {
        let ghost m = tree_nodes(*cst);
        let ghost bytes = code.spec_bytes();
        let root = tree_root_node(cst);
        if !node_fits(&root, code) {
            return None;
        }
        let mut walk = PreOrder::new(cst);
        proof {
            lemma_fresh_walk_pending(m);
        }
        let nodes = walk.collect_pending();
        let mut i: usize = 0;
        while i < nodes.len()
            invariant
                wf_nodes(m),
                m == tree_nodes(*cst),
                bytes == code.spec_bytes(),
                i <= nodes@.len(),
                forall|j: int| 0 <= j < nodes@.len() ==> node_nodes(#[trigger] nodes@[j]) == m,
                forall|j: int|
                    0 <= j < nodes@.len() ==> m.contains_key(node_path(#[trigger] nodes@[j])),
                forall|j: int|
                    0 <= j < i ==> range_fits(
                        bytes,
                        start_of(m, node_path(#[trigger] nodes@[j])),
                        end_of(m, node_path(nodes@[j])),
                    ),
            decreases nodes@.len() - i,
        {
            if !node_fits(&nodes[i], code) {
                return None;
            }
            i = i + 1;
        }
        assert forall|p: Seq<int>| #[trigger] m.contains_key(p) implies range_fits(
            bytes,
            start_of(m, p),
            end_of(m, p),
        ) by {
            if p != Seq::<int>::empty() {
                assert(m.dom().remove(Seq::<int>::empty()).contains(p));
                let j = choose|j: int| 0 <= j < nodes@.len() && node_path(#[trigger] nodes@[j]) == p;
            }
        }
        Some(TreeSitterCST { cst, code })
    }

    /// `node_to_code`: the source text of `node`.
    pub fn node_to_code(&self, node: &Node<'tree>) -> (r: &'text str)
        requires
            node_nodes(*node) == self.nodes(),
            self.nodes().contains_key(node_path(*node)),
        ensures
            r@ == self.node_code(node_path(*node)),
    {
        proof {
            use_type_invariant(self);
        }
        let ghost m = self.nodes();
        let ghost p = node_path(*node);
        let ghost bytes = self.text();
        let start = node_start_byte(node);
        let end = node_end_byte(node);
        proof {
            assert(range_fits(bytes, start_of(m, p), end_of(m, p)));
            vstd::utf8::encode_utf8_valid_utf8(self.code@);
        }
        let (_, rest) = self.code.split_at(start);
        let ghost rb = rest.spec_bytes();
        proof {
            assert(rb =~= bytes.subrange(start as int, bytes.len() as int));
            vstd::utf8::encode_utf8_valid_utf8(rest@);
            let k = end - start;
            if k == rb.len() {
                vstd::utf8::is_char_boundary_start_end_of_seq(rb);
            } else if k > 0 {
                vstd::utf8::is_char_boundary_iff_not_is_continuation_byte(rb, k as int);
                vstd::utf8::is_char_boundary_iff_not_is_continuation_byte(bytes, end as int);
                assert(rb[k as int] == bytes[end as int]);
            }
        }
        let (piece, _) = rest.split_at(end - start);
        proof {
            assert(piece.spec_bytes() =~= bytes.subrange(start as int, end as int));
            vstd::utf8::encode_utf8_decode_utf8(piece@);
        }
        piece
    }
}

/// Whether the byte range of `n` lies on whole characters of `code`.
fn node_fits(n: &Node, code: &str) -> (r: bool)
    requires
        valid_node(*n),
    ensures
        r == range_fits(
            code.spec_bytes(),
            start_of(node_nodes(*n), node_path(*n)),
            end_of(node_nodes(*n), node_path(*n)),
        ),
{
    let start = node_start_byte(n);
    let end = node_end_byte(n);
    proof {
        vstd::utf8::encode_utf8_valid_utf8(code@);
    }
    start <= end && code.is_char_boundary(start) && code.is_char_boundary(end)
}

} // verus!
