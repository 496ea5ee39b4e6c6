//! Finding the polyglot (GraalVM `Context.eval`) calls of a Java syntax tree.
use crate::cst::{code_of, TreeSitterCST};
use crate::order::{is_prefix, precedes};
use crate::preorder::{lemma_fresh_walk_pending, lists_in_order, PreOrder};
use crate::syntax::{
    captures_view, end_of, java_first_match, java_first_match_of, java_grammar, kind_of,
    node_child, node_is_java,
    node_child_count, node_kind, node_nodes, node_path, start_of, tree_nodes, tree_root_node,
    valid_node, wf_nodes, Nodes,
};
use crate::text::{
    language_of, language_string_to_enum, str_eq, strip_quotes, strip_quotes_spec, Language,
};
use tree_sitter::QueryError;
use tree_sitter::Node;
use vstd::prelude::*;

verus! {

/// The kinds of polyglot interaction.
#[derive(Debug, Clone, Copy, PartialEq, Eq, Structural)]
pub enum PolyglotKind {
    Import,
    Eval,
}

/// A polyglot use found in the tree, not yet resolved to the code it runs.
/// `N` stands for a node of the tree (or, in contracts, for its path).
#[derive(Debug, PartialEq, Eq)]
pub enum UnSolvedPolyglotUse<N> {
    /// Partially solved: the context that is evaluated.
    EvalContext { name: N },
    /// Partially solved: the builder whose source is evaluated.
    EvalBuilder { name: N },
    /// Can be evaluated: the evaluation and the language it names.
    EvalSource { source: N, lang: Language },
    /// Can be evaluated if the referenced file can.
    Eval { path: N, lang: Language },
    /// Can be evaluated if the referenced file can.
    Import { path: N, lang: Language },
}

/// The kind of interaction a use is.
pub open spec fn use_kind<N>(u: UnSolvedPolyglotUse<N>) -> PolyglotKind {
    match u {
        UnSolvedPolyglotUse::Import { .. } => PolyglotKind::Import,
        _ => PolyglotKind::Eval,
    }
}

impl<N> UnSolvedPolyglotUse<N> {
    /// `get_kind`: imports are imports, every other use is an evaluation.
    pub fn get_kind(&self) -> (k: PolyglotKind)
        ensures
            k == use_kind(*self),
    {
        match self {
            UnSolvedPolyglotUse::EvalContext { .. } => PolyglotKind::Eval,
            UnSolvedPolyglotUse::EvalBuilder { .. } => PolyglotKind::Eval,
            UnSolvedPolyglotUse::EvalSource { .. } => PolyglotKind::Eval,
            UnSolvedPolyglotUse::Eval { .. } => PolyglotKind::Eval,
            UnSolvedPolyglotUse::Import { .. } => PolyglotKind::Import,
        }
    }
}

/// An error of the analysis.
#[derive(Debug, Clone, Copy, PartialEq, Eq, Structural)]
pub struct AnaError;

/// A value that the program exports to other languages.
#[derive(Debug, PartialEq, Eq)]
pub enum PolyglotDef {
    ExportValue { name: String, value: String },
}

/// The tree-sitter query that finds what an `eval` call evaluates: within the
/// subtree of the call, a `method_invocation` whose `name` field holds an
/// identifier matching `eval`, and whose `arguments` field holds an argument
/// list with a call `x.build()` on an identifier `x`, or with an identifier, or
/// with two expressions.
pub const EVAL_QUERY: &'static str = r#"(method_invocation
    name: (identifier) @name
    (#match? @name "eval")
    arguments: [
        (argument_list
            (method_invocation
                object: (identifier) @indirect_build
                name: (identifier) @build
                (#match? @build "build")
            )
        )
        (argument_list
            (identifier) @indirect
        )
        (argument_list
            (expression) @lang
            (expression) @code
        )
    ]
)"#;

/// The use with each node replaced by its path.
pub open spec fn use_view(u: UnSolvedPolyglotUse<Node>) -> UnSolvedPolyglotUse<Seq<int>> {
    match u {
        UnSolvedPolyglotUse::EvalContext { name } => UnSolvedPolyglotUse::EvalContext {
            name: node_path(name),
        },
        UnSolvedPolyglotUse::EvalBuilder { name } => UnSolvedPolyglotUse::EvalBuilder {
            name: node_path(name),
        },
        UnSolvedPolyglotUse::EvalSource { source, lang } => UnSolvedPolyglotUse::EvalSource {
            source: node_path(source),
            lang,
        },
        UnSolvedPolyglotUse::Eval { path, lang } => UnSolvedPolyglotUse::Eval {
            path: node_path(path),
            lang,
        },
        UnSolvedPolyglotUse::Import { path, lang } => UnSolvedPolyglotUse::Import {
            path: node_path(path),
            lang,
        },
    }
}

/// Every node the use names belongs to the tree `m`.
pub open spec fn use_in_tree(u: UnSolvedPolyglotUse<Node>, m: Nodes) -> bool {
    match u {
        UnSolvedPolyglotUse::EvalContext { name } => node_nodes(name) == m,
        UnSolvedPolyglotUse::EvalBuilder { name } => node_nodes(name) == m,
        UnSolvedPolyglotUse::EvalSource { source, .. } => node_nodes(source) == m,
        UnSolvedPolyglotUse::Eval { path, .. } => node_nodes(path) == m,
        UnSolvedPolyglotUse::Import { path, .. } => node_nodes(path) == m,
    }
}

/// The outcome with each node replaced by its path.
pub open spec fn outcome_view(r: Option<Result<UnSolvedPolyglotUse<Node>, AnaError>>) -> Option<
    Result<UnSolvedPolyglotUse<Seq<int>>, AnaError>,
> {
    match r {
        None => None,
        Some(Ok(u)) => Some(Ok(use_view(u))),
        Some(Err(e)) => Some(Err(e)),
    }
}

/// Every node the use names lies in the subtree of `p`, and its text within
/// the text of `p`.
pub open spec fn use_within(u: UnSolvedPolyglotUse<Seq<int>>, m: Nodes, p: Seq<int>) -> bool {
    let q = match u {
        UnSolvedPolyglotUse::EvalContext { name } => name,
        UnSolvedPolyglotUse::EvalBuilder { name } => name,
        UnSolvedPolyglotUse::EvalSource { source, .. } => source,
        UnSolvedPolyglotUse::Eval { path, .. } => path,
        UnSolvedPolyglotUse::Import { path, .. } => path,
    };
    &&& is_prefix(p, q)
    &&& start_of(m, p) <= start_of(m, q)
    &&& end_of(m, q) <= end_of(m, p)
}

/// The node at `p` exists and has kind `k`.
pub open spec fn has_kind(m: Nodes, p: Seq<int>, k: Seq<char>) -> bool {
    m.contains_key(p) && kind_of(m, p) == k
}

/// The name of the method a call at `p` invokes: child 2 of a
/// `method_invocation`, when that child is an `identifier`.
pub open spec fn polyglot_call(m: Nodes, p: Seq<int>) -> Option<Seq<int>> {
    if has_kind(m, p, "method_invocation"@) && has_kind(m, p.push(2), "identifier"@) {
        Some(p.push(2))
    } else {
        None
    }
}

/// What an `eval` call at `p` evaluates, given `found`, the first match of
/// `EVAL_QUERY` on its subtree (captures by name and path, see
/// `java_first_match_of`). Its first capture must be a name whose text is
/// exactly `eval`, and its second one tells the form apart:
/// - `indirect_build`: the call evaluates what the builder `x` builds;
/// - `lang`: the call evaluates source code in the language that this argument
///   names (a string literal, without its quotes), when that is a known language.
/// Every other outcome is an error: the query does not compile, nothing
/// matches, the name is not exactly `eval`, the argument is an identifier
/// (`indirect`, not handled yet) or names no known language.
pub open spec fn eval_outcome(
    m: Nodes,
    text: Seq<u8>,
    p: Seq<int>,
    found: Result<Option<Seq<(Seq<char>, Seq<int>)>>, ()>,
) -> Result<UnSolvedPolyglotUse<Seq<int>>, AnaError> {
    match found {
        Ok(Some(caps)) => if caps.len() >= 2 && code_of(text, m, caps[0].1) == "eval"@ {
            if caps[1].0 == "indirect_build"@ {
                Ok(UnSolvedPolyglotUse::EvalBuilder { name: caps[1].1 })
            } else if caps[1].0 == "lang"@ {
                match language_of(strip_quotes_spec(code_of(text, m, caps[1].1))) {
                    Some(l) => Ok(UnSolvedPolyglotUse::EvalSource { source: p, lang: l }),
                    None => Err(AnaError),
                }
            } else {
                Err(AnaError)
            }
        } else {
            Err(AnaError)
        },
        _ => Err(AnaError),
    }
}

/// What the analysis finds at the node at `p`: `None` when it is no polyglot
/// call; for a call of `eval`, its outcome (see `eval_outcome`), or an error
/// when the tree was not parsed with the Java grammar (the query cannot be run
/// on it); for a call of `getMember`, an error (its reading is not written yet).
pub open spec fn use_result(m: Nodes, text: Seq<u8>, p: Seq<int>) -> Option<
    Result<UnSolvedPolyglotUse<Seq<int>>, AnaError>,
> {
    match polyglot_call(m, p) {
        None => None,
        Some(c) => if code_of(text, m, c) == "eval"@ {
            if java_grammar(m, p) {
                Some(eval_outcome(m, text, p, java_first_match_of(EVAL_QUERY@, m, p, text)))
            } else {
                Some(Err(AnaError))
            }
        } else if code_of(text, m, c) == "getMember"@ {
            Some(Err(AnaError))
        } else {
            None
        },
    }
}

/// The call at `p` has five children in its argument list (two arguments),
/// the first of which names a known language.
pub open spec fn two_args_known_language(m: Nodes, text: Seq<u8>, p: Seq<int>) -> bool {
    let a = p.push(3);
    &&& m.contains_key(a)
    &&& m.contains_key(a.push(4))
    &&& !m.contains_key(a.push(5))
    &&& language_of(strip_quotes_spec(code_of(text, m, a.push(1)))) is Some
}

/// `us` lists the uses found at the nodes of the tree but the root, in
/// document order.
pub open spec fn lists_uses(us: Seq<UnSolvedPolyglotUse<Node>>, m: Nodes, text: Seq<u8>) -> bool {
    exists|ps: Seq<Seq<int>>| #[trigger] lists_uses_at(us, ps, m, text)
}

/// `us` holds the uses found at the nodes at `ps`, which are all the nodes of
/// the tree but the root where a use is found, in document order.
pub open spec fn lists_uses_at(
    us: Seq<UnSolvedPolyglotUse<Node>>,
    ps: Seq<Seq<int>>,
    m: Nodes,
    text: Seq<u8>,
) -> bool {
    &&& ps.len() == us.len()
    &&& forall|j: int|
        0 <= j < ps.len() ==> m.contains_key(#[trigger] ps[j]) && ps[j] != Seq::<int>::empty()
    &&& forall|j: int|
        0 <= j < ps.len() ==> use_result(m, text, #[trigger] ps[j]) == Some(
            Ok::<UnSolvedPolyglotUse<Seq<int>>, AnaError>(use_view(us[j])),
        ) && use_in_tree(us[j], m)
    &&& forall|j: int, k: int| 0 <= j < k < ps.len() ==> precedes(#[trigger] ps[j], #[trigger] ps[k])
    &&& forall|q: Seq<int>|
        m.contains_key(q) && q != Seq::<int>::empty() && (#[trigger] use_result(m, text, q) matches Some(Ok(_)))
            ==> exists|j: int| 0 <= j < ps.len() && ps[j] == q
}

/// Finds the polyglot uses of a Java syntax tree.
pub struct JavaBuilder<'tree, 'text> {
    payload: TreeSitterCST<'tree, 'text>,
}

impl<'tree, 'text> JavaBuilder<'tree, 'text> {
    /// The nodes of the tree under analysis.
    pub closed spec fn nodes(&self) -> Nodes {
        self.payload.nodes()
    }

    /// The UTF-8 bytes of the text under analysis.
    pub closed spec fn text(&self) -> Seq<u8> {
        self.payload.text()
    }

    /// `n` is a node of the tree under analysis.
    pub open spec fn holds(&self, n: Node) -> bool {
        node_nodes(n) == self.nodes() && self.nodes().contains_key(node_path(n))
    }

    /// `init`: a builder for the tree and text of `payload`.
    pub fn init(payload: TreeSitterCST<'tree, 'text>) -> (r: Self)
        ensures
            r.nodes() == payload.nodes(),
            r.text() == payload.text(),
    {
        Self { payload }
    }

    /// `node_to_code`: the source text of `node`.
    pub fn node_to_code(&self, node: &Node<'tree>) -> (r: &'text str)
        requires
            self.holds(*node),
        ensures
            r@ == code_of(self.text(), self.nodes(), node_path(*node)),
    {
        self.payload.node_to_code(node)
    }

    /// `get_polyglot_call`: the name of the method `node` invokes, when `node`
    /// is a `method_invocation` whose child 2 is an `identifier`.
    pub fn get_polyglot_call<'n>(&self, node: &Node<'n>) -> (r: Option<Node<'n>>)
        requires
            valid_node(*node),
        ensures
            match r {
                Some(c) => polyglot_call(node_nodes(*node), node_path(*node)) == Some(node_path(c))
                    && node_nodes(c) == node_nodes(*node),
                None => polyglot_call(node_nodes(*node), node_path(*node)) is None,
            },
            r is Some <==> has_kind(node_nodes(*node), node_path(*node), "method_invocation"@)
                && has_kind(node_nodes(*node), node_path(*node).push(2), "identifier"@),
            r matches Some(c) ==> node_path(c) == node_path(*node).push(2),
    {
        if !str_eq(node_kind(node), "method_invocation") {
            return None;
        }
        let child = match node_child(node, 2) {
            Some(c) => c,
            None => return None,
        };
        if str_eq(node_kind(&child), "identifier") {
            return Some(child);
        }
        None
    }

    /// `eval`: what the call `node` evaluates, given `found`, the first match of
    /// `EVAL_QUERY` on its subtree (see `eval_outcome`).
    pub fn eval_use_from_match(
        &self,
        node: &Node<'tree>,
        found: Result<Option<Vec<(String, Node<'tree>)>>, QueryError>,
    ) -> (r: Result<UnSolvedPolyglotUse<Node<'tree>>, AnaError>)
        requires
            self.holds(*node),
            found matches Ok(Some(caps)) ==> forall|j: int|
                0 <= j < caps@.len() ==> self.holds(#[trigger] caps@[j].1),
        ensures
            match r {
                Ok(u) => eval_outcome(
                    self.nodes(),
                    self.text(),
                    node_path(*node),
                    captures_view(found),
                ) == Ok::<UnSolvedPolyglotUse<Seq<int>>, AnaError>(use_view(u)) && use_in_tree(
                    u,
                    self.nodes(),
                ),
                Err(e) => eval_outcome(
                    self.nodes(),
                    self.text(),
                    node_path(*node),
                    captures_view(found),
                ) == Err::<UnSolvedPolyglotUse<Seq<int>>, AnaError>(e),
            },
            found matches Ok(Some(caps)) ==> (caps@.len() >= 2 && code_of(
                self.text(),
                self.nodes(),
                node_path(caps@[0].1),
            ) == "eval"@ && caps@[1].0@ == "lang"@ && language_of(
                strip_quotes_spec(code_of(self.text(), self.nodes(), node_path(caps@[1].1))),
            ) is Some ==> r == Ok::<UnSolvedPolyglotUse<Node<'tree>>, AnaError>(
                UnSolvedPolyglotUse::EvalSource {
                    source: *node,
                    lang: language_of(
                        strip_quotes_spec(code_of(self.text(), self.nodes(), node_path(caps@[1].1))),
                    )->Some_0,
                },
            )),
            found matches Ok(Some(caps)) ==> (caps@.len() >= 2 && code_of(
                self.text(),
                self.nodes(),
                node_path(caps@[0].1),
            ) == "eval"@ && caps@[1].0@ == "indirect_build"@ ==> r == Ok::<
                UnSolvedPolyglotUse<Node<'tree>>,
                AnaError,
            >(UnSolvedPolyglotUse::EvalBuilder { name: caps@[1].1 })),
            !(found matches Ok(Some(caps)) && caps@.len() >= 2 && code_of(
                self.text(),
                self.nodes(),
                node_path(caps@[0].1),
            ) == "eval"@ && (caps@[1].0@ == "indirect_build"@ || (caps@[1].0@ == "lang"@
                && language_of(
                strip_quotes_spec(code_of(self.text(), self.nodes(), node_path(caps@[1].1))),
            ) is Some))) ==> r == Err::<UnSolvedPolyglotUse<Node<'tree>>, AnaError>(AnaError),
    {
        proof {
            reveal_strlit("lang");
            reveal_strlit("indirect_build");
            assert("lang"@.len() == 4);
            assert("indirect_build"@.len() == 14);
        }
        let caps = match found {
            Ok(Some(caps)) => caps,
            _ => return Err(AnaError),
        };
        if caps.len() < 2 {
            return Err(AnaError);
        }
        let ghost cv = caps@.map_values(|c: (String, Node)| (c.0@, node_path(c.1)));
        let first = &caps[0];
        let second = &caps[1];
        proof {
            assert(cv[0] == (first.0@, node_path(first.1)));
            assert(cv[1] == (second.0@, node_path(second.1)));
            assert(self.holds(caps@[0].1));
            assert(self.holds(caps@[1].1));
        }
        if !str_eq(self.node_to_code(&first.1), "eval") {
            return Err(AnaError);
        }
        if str_eq(second.0.as_str(), "indirect_build") {
            Ok(UnSolvedPolyglotUse::EvalBuilder { name: second.1 })
        } else if str_eq(second.0.as_str(), "lang") {
            let lang_name = strip_quotes(self.node_to_code(&second.1));
            match language_string_to_enum(lang_name.as_str()) {
                Ok(lang) => Ok(UnSolvedPolyglotUse::EvalSource { source: *node, lang }),
                Err(_) => Err(AnaError),
            }
        } else {
            Err(AnaError)
        }
    }

    /// `try_compute_polyglot_use`: the polyglot use at `node` (see
    /// `use_result`): `None` when `node` is no polyglot call, else the use it
    /// makes, or `AnaError` for a call whose reading is not written yet. Every
    /// node the use names lies within `node`.
    pub fn try_compute_polyglot_use(&self, node: &Node<'tree>) -> (r: Option<
        Result<UnSolvedPolyglotUse<Node<'tree>>, AnaError>,
    >)
        requires
            self.holds(*node),
        ensures
            outcome_view(r) == use_result(self.nodes(), self.text(), node_path(*node)),
            r matches Some(Ok(u)) ==> use_in_tree(u, self.nodes()) && use_within(
                use_view(u),
                self.nodes(),
                node_path(*node),
            ),
    {
        proof {
            use_type_invariant(&self.payload);
        }
        let ghost m = self.nodes();
        let ghost p = node_path(*node);
        let call = match self.get_polyglot_call(node) {
            Some(c) => c,
            None => return None,
        };
        let s = self.node_to_code(&call);
        if str_eq(s, "eval") {
            if !node_is_java(node) {
                return Some(Err(AnaError));
            }
            let code = self.payload.code();
            let bytes = code.as_bytes();
            proof {
                assert forall|q: Seq<int>| #[trigger]
                    m.contains_key(q) && is_prefix(p, q) implies end_of(m, q)
                    <= bytes@.len() by {
                    assert(crate::cst::range_fits(self.text(), start_of(m, q), end_of(m, q)));
                }
            }
            let found = java_first_match(EVAL_QUERY, node, bytes);
            let ghost fv = found;
            let r = self.eval_use_from_match(node, found);
            proof {
                if r is Ok && fv is Ok && fv->Ok_0 is Some {
                    let caps = fv->Ok_0->Some_0;
                    if caps@.len() >= 2 {
                        assert(is_prefix(p, node_path(caps@[1].1)));
                        lemma_subtree_range(m, p, node_path(caps@[1].1));
                    }
                }
                lemma_subtree_range(m, p, p);
            }
            Some(r)
        } else if str_eq(s, "getMember") {
            Some(Err(AnaError))
        } else {
            None
        }
    }

    /// `try_compute_polyglot_def`: the export at `node`. No form of export is
    /// read yet: a call of `putMember` whose whole text is `putMember` gives an
    /// error, and every other node has none.
    pub fn try_compute_polyglot_def(&self, node: &Node<'tree>) -> (r: Option<
        Result<PolyglotDef, AnaError>,
    >)
        requires
            self.holds(*node),
        ensures
            if polyglot_call(self.nodes(), node_path(*node)) matches Some(c) && code_of(
                self.text(),
                self.nodes(),
                c,
            ) == "putMember"@ && code_of(self.text(), self.nodes(), node_path(*node))
                == "putMember"@ {
                r == Some(Err::<PolyglotDef, AnaError>(AnaError))
            } else {
                r is None
            },
    {
        proof {
            use_type_invariant(&self.payload);
        }
        match self.get_polyglot_call(node) {
            None => None,
            Some(call) => {
                if str_eq(self.node_to_code(&call), "putMember") && str_eq(
                    self.node_to_code(node),
                    "putMember",
                ) {
                    Some(Err(AnaError))
                } else {
                    None
                }
            },
        }
    }

    /// `find_polyglot_uses`: the polyglot uses found at the nodes of the tree
    /// but its root, in document order; nodes where reading the use fails are
    /// passed over.
    pub fn find_polyglot_uses(&self) -> (r: Vec<UnSolvedPolyglotUse<Node<'tree>>>)
        ensures
            lists_uses(r@, self.nodes(), self.text()),
    {
        proof {
            use_type_invariant(&self.payload);
        }
        let ghost m = self.nodes();
        let ghost text = self.text();
        let ghost root = Seq::<int>::empty();
        let tree = self.payload.cst();
        let mut walk = PreOrder::new(tree);
        proof {
            lemma_fresh_walk_pending(m);
        }
        let nodes = walk.collect_pending();
        let mut uses: Vec<UnSolvedPolyglotUse<Node<'tree>>> = Vec::new();
        let ghost mut ps: Seq<Seq<int>> = Seq::empty();
        let ghost mut idx: Seq<int> = Seq::empty();
        let mut i: usize = 0;
        while i < nodes.len()
            invariant
                m == self.nodes(),
                text == self.text(),
                wf_nodes(m),
                root == Seq::<int>::empty(),
                lists_in_order(nodes@, m, m.dom().remove(root)),
                i <= nodes@.len(),
                ps.len() == uses@.len(),
                idx.len() == uses@.len(),
                forall|j: int|
                    0 <= j < idx.len() ==> 0 <= #[trigger] idx[j] < i && ps[j] == node_path(
                        nodes@[idx[j]],
                    ),
                forall|j: int, k: int| 0 <= j < k < idx.len() ==> #[trigger] idx[j] < #[trigger] idx[k],
                forall|j: int|
                    0 <= j < ps.len() ==> use_result(m, text, #[trigger] ps[j]) == Some(
                        Ok::<UnSolvedPolyglotUse<Seq<int>>, AnaError>(use_view(uses@[j])),
                    ) && use_in_tree(uses@[j], m),
                forall|k: int|
                    0 <= k < i && (use_result(m, text, node_path(#[trigger] nodes@[k])) matches Some(Ok(_)))
                        ==> exists|j: int| 0 <= j < idx.len() && idx[j] == k,
            decreases nodes@.len() - i,
        {
            assert(m.dom().remove(root).contains(node_path(nodes@[i as int])));
            let found = self.try_compute_polyglot_use(&nodes[i]);
            match found {
                Some(Ok(u)) => {
                    let ghost old_idx = idx;
                    uses.push(u);
                    proof {
                        ps = ps.push(node_path(nodes@[i as int]));
                        idx = idx.push(i as int);
                        assert forall|k: int|
                            0 <= k < i + 1 && (use_result(
                                m,
                                text,
                                node_path(#[trigger] nodes@[k]),
                            ) matches Some(Ok(_))) implies exists|j: int|
                            0 <= j < idx.len() && idx[j] == k by {
                            if k == i {
                                assert(idx[idx.len() - 1] == k);
                            } else {
                                let j = choose|j: int| 0 <= j < old_idx.len() && old_idx[j] == k;
                                assert(idx[j] == k);
                            }
                        }
                    }
                },
                _ => {},
            }
            i = i + 1;
        }
        proof {
            assert forall|j: int|
                0 <= j < ps.len() implies m.contains_key(#[trigger] ps[j]) && ps[j] != root by {
                assert(m.dom().remove(root).contains(node_path(nodes@[idx[j]])));
            }
            assert forall|j: int, k: int| 0 <= j < k < ps.len() implies precedes(
                #[trigger] ps[j],
                #[trigger] ps[k],
            ) by {
                assert(idx[j] < idx[k]);
            }
            assert forall|q: Seq<int>|
                m.contains_key(q) && q != root && (#[trigger] use_result(m, text, q) matches Some(Ok(_)))
                    implies exists|j: int| 0 <= j < ps.len() && ps[j] == q by {
                assert(m.dom().remove(root).contains(q));
                let k = choose|k: int| 0 <= k < nodes@.len() && node_path(#[trigger] nodes@[k]) == q;
                let j = choose|j: int| 0 <= j < idx.len() && idx[j] == k;
                assert(ps[j] == q);
            }
            assert(lists_uses_at(uses@, ps, m, text));
        }
        uses
    }

    /// `find_polyglot_exports`: the value the whole program exports, when its
    /// text is `??`: the texts of children 1 and 3 of the root.
    pub fn find_polyglot_exports(&self) -> (r: Vec<PolyglotDef>)
        requires
            code_of(self.text(), self.nodes(), Seq::<int>::empty()) == "??"@ ==> {
                &&& self.nodes().contains_key(seq![1int])
                &&& self.nodes().contains_key(seq![3int])
            },
        ensures
            if code_of(self.text(), self.nodes(), Seq::<int>::empty()) == "??"@ {
                &&& r@.len() == 1
                &&& r@[0] matches PolyglotDef::ExportValue { name, value } && name@ == code_of(
                    self.text(),
                    self.nodes(),
                    seq![1int],
                ) && value@ == code_of(self.text(), self.nodes(), seq![3int])
            } else {
                r@.len() == 0
            },
    {
        let ghost m = self.nodes();
        let ghost text = self.text();
        let ghost exported = code_of(text, m, Seq::<int>::empty()) == "??"@;
        let mut exports: Vec<PolyglotDef> = Vec::new();
        let tree = self.payload.cst();
        let mut stack: Vec<Node<'tree>> = Vec::new();
        stack.push(tree_root_node(tree));
        loop
            invariant
                m == self.nodes(),
                text == self.text(),
                tree_nodes(*tree) == m,
                exported == (code_of(text, m, Seq::<int>::empty()) == "??"@),
                exported ==> m.contains_key(seq![1int]) && m.contains_key(seq![3int]),
                stack@.len() <= 1,
                stack@.len() == 1 ==> exports@.len() == 0,
                stack@.len() == 0 ==> if exported {
                    &&& exports@.len() == 1
                    &&& exports@[0] matches PolyglotDef::ExportValue { name, value } && name@
                        == code_of(text, m, seq![1int]) && value@ == code_of(text, m, seq![3int])
                } else {
                    exports@.len() == 0
                },
            ensures
                if exported {
                    &&& exports@.len() == 1
                    &&& exports@[0] matches PolyglotDef::ExportValue { name, value } && name@
                        == code_of(text, m, seq![1int]) && value@ == code_of(text, m, seq![3int])
                } else {
                    exports@.len() == 0
                },
            decreases stack@.len(),
        {
            let popped = stack.pop();
            if popped.is_none() {
                break ;
            }
            let root = tree_root_node(tree);
            proof {
                assert(seq![1int] =~= Seq::<int>::empty().push(1));
                assert(seq![3int] =~= Seq::<int>::empty().push(3));
            }
            if str_eq(self.node_to_code(&root), "??") {
                let name_node = match node_child(&root, 1) {
                    Some(n) => n,
                    None => break ,
                };
                let value_node = match node_child(&root, 3) {
                    Some(n) => n,
                    None => break ,
                };
                let export = PolyglotDef::ExportValue {
                    name: self.node_to_code(&name_node).to_owned(),
                    value: self.node_to_code(&value_node).to_owned(),
                };
                exports.push(export);
            }
        }
        exports
    }

    /// `compute_polyglot_use`: reads a call `ctx.eval(..)` by its argument
    /// count. Neither form it recognises is finished: one argument gives no use
    /// (the argument list then has no child 1), and two arguments naming an
    /// unknown language give none either; two arguments naming a known language
    /// are left out.
    fn compute_polyglot_use(&self, call_expr: &Node<'tree>) -> (r: Option<
        UnSolvedPolyglotUse<Node<'tree>>,
    >)
        requires
            self.holds(*call_expr),
            !two_args_known_language(self.nodes(), self.text(), node_path(*call_expr)),
        ensures
            r is None,
    {
        proof {
            use_type_invariant(&self.payload);
        }
        let parameters = match node_child(call_expr, 3) {
            Some(p) => p,
            None => return None,
        };
        let parameter_count = node_child_count(&parameters);
        if parameter_count == 1 {
            // `ctx.eval(source)`; with a single child the list has no child 1
            let parameter = match node_child(&parameters, 1) {
                Some(p) => p,
                None => return None,
            };
            Some(UnSolvedPolyglotUse::EvalContext { name: parameter })
        } else if parameter_count == 5 {
            let language = match node_child(&parameters, 1) {
                Some(l) => l,
                None => return None,
            };
            let s = strip_quotes(self.node_to_code(&language));
            match language_string_to_enum(s.as_str()) {
                // the reading of a known language is not written yet; the precondition excludes it
                Ok(_) => None,
                Err(_) => None,
            }
        } else {
            None
        }
    }
}

/// Every use the analysis finds is an evaluation: it finds no imports.
pub proof fn lemma_uses_are_evaluations(m: Nodes, text: Seq<u8>, p: Seq<int>)
    ensures
        use_result(m, text, p) matches Some(Ok(u)) ==> use_kind(u) == PolyglotKind::Eval,
{
}

/// A node is a polyglot call exactly when it is a `method_invocation` whose
/// child 2 (its name) is an identifier, whatever its receiver.
pub proof fn lemma_polyglot_call_is_the_name(m: Nodes, p: Seq<int>)
    ensures
        polyglot_call(m, p) is Some <==> has_kind(m, p, "method_invocation"@) && has_kind(
            m,
            p.push(2),
            "identifier"@,
        ),
        polyglot_call(m, p) matches Some(c) ==> c == p.push(2),
{
}

/// An `eval` call (a `method_invocation` whose child 2 is an identifier
/// reading `eval`, whatever its receiver) of a Java tree, whose query match
/// reads a `lang` argument naming a known language, is found as an
/// `EvalSource` of the call in the language `language_of` gives for that
/// argument's text without its quotes.
pub proof fn lemma_eval_source_language(
    m: Nodes,
    text: Seq<u8>,
    p: Seq<int>,
    caps: Seq<(Seq<char>, Seq<int>)>,
)
    requires
        has_kind(m, p, "method_invocation"@),
        has_kind(m, p.push(2), "identifier"@),
        code_of(text, m, p.push(2)) == "eval"@,
        java_grammar(m, p),
        java_first_match_of(EVAL_QUERY@, m, p, text) == Ok::<
            Option<Seq<(Seq<char>, Seq<int>)>>,
            (),
        >(Some(caps)),
        caps.len() >= 2,
        code_of(text, m, caps[0].1) == "eval"@,
        caps[1].0 == "lang"@,
        language_of(strip_quotes_spec(code_of(text, m, caps[1].1))) is Some,
    ensures
        use_result(m, text, p) == Some(
            Ok::<UnSolvedPolyglotUse<Seq<int>>, AnaError>(
                UnSolvedPolyglotUse::EvalSource {
                    source: p,
                    lang: language_of(strip_quotes_spec(code_of(text, m, caps[1].1)))->Some_0,
                },
            ),
        ),
{
    reveal_strlit("lang");
    reveal_strlit("indirect_build");
    assert("lang"@.len() == 4);
    assert("indirect_build"@.len() == 14);
}

/// An `eval` call of a Java tree whose query match reads a builder call
/// `x.build()` is found as an `EvalBuilder` of `x`, the captured receiver.
pub proof fn lemma_eval_builder_receiver(
    m: Nodes,
    text: Seq<u8>,
    p: Seq<int>,
    caps: Seq<(Seq<char>, Seq<int>)>,
)
    requires
        has_kind(m, p, "method_invocation"@),
        has_kind(m, p.push(2), "identifier"@),
        code_of(text, m, p.push(2)) == "eval"@,
        java_grammar(m, p),
        java_first_match_of(EVAL_QUERY@, m, p, text) == Ok::<
            Option<Seq<(Seq<char>, Seq<int>)>>,
            (),
        >(Some(caps)),
        caps.len() >= 2,
        code_of(text, m, caps[0].1) == "eval"@,
        caps[1].0 == "indirect_build"@,
    ensures
        use_result(m, text, p) == Some(
            Ok::<UnSolvedPolyglotUse<Seq<int>>, AnaError>(
                UnSolvedPolyglotUse::EvalBuilder { name: caps[1].1 },
            ),
        ),
{
}

/// A list of found uses (what `find_polyglot_uses` returns) holds a use for
/// every node but the root that is a `method_invocation` whose child 2 is an
/// identifier reading `eval`, whatever its receiver, when the query reads a
/// use there.
pub proof fn lemma_found_uses_cover_eval_calls(
    us: Seq<UnSolvedPolyglotUse<Node>>,
    m: Nodes,
    text: Seq<u8>,
    q: Seq<int>,
    u: UnSolvedPolyglotUse<Seq<int>>,
)
    requires
        lists_uses(us, m, text),
        q != Seq::<int>::empty(),
        has_kind(m, q, "method_invocation"@),
        has_kind(m, q.push(2), "identifier"@),
        code_of(text, m, q.push(2)) == "eval"@,
        java_grammar(m, q),
        eval_outcome(m, text, q, java_first_match_of(EVAL_QUERY@, m, q, text)) == Ok::<
            UnSolvedPolyglotUse<Seq<int>>,
            AnaError,
        >(u),
    ensures
        exists|j: int| 0 <= j < us.len() && use_view(#[trigger] us[j]) == u,
{
    let ps = choose|ps: Seq<Seq<int>>| #[trigger] lists_uses_at(us, ps, m, text);
    assert(use_result(m, text, q) matches Some(Ok(_)));
    let j = choose|j: int| 0 <= j < ps.len() && ps[j] == q;
    assert(use_result(m, text, ps[j]) == Some(
        Ok::<UnSolvedPolyglotUse<Seq<int>>, AnaError>(use_view(us[j])),
    ));
}

/// What the analysis finds at a node, by the text of the method it calls:
/// nothing at a node that is no call with an identifier for its name, or that
/// calls a method other than `eval` and `getMember`; an error at a call of
/// `getMember`, and at a call of `eval` in a tree not parsed with the Java
/// grammar.
pub proof fn lemma_use_result_by_callee(m: Nodes, text: Seq<u8>, p: Seq<int>)
    ensures
        !(has_kind(m, p, "method_invocation"@) && has_kind(m, p.push(2), "identifier"@))
            ==> use_result(m, text, p) is None,
        has_kind(m, p, "method_invocation"@) && has_kind(m, p.push(2), "identifier"@) ==> {
            &&& code_of(text, m, p.push(2)) != "eval"@ && code_of(text, m, p.push(2))
                != "getMember"@ ==> use_result(m, text, p) is None
            &&& code_of(text, m, p.push(2)) == "getMember"@ ==> use_result(m, text, p) == Some(
                Err::<UnSolvedPolyglotUse<Seq<int>>, AnaError>(AnaError),
            )
            &&& code_of(text, m, p.push(2)) == "eval"@ && !java_grammar(m, p) ==> use_result(
                m,
                text,
                p,
            ) == Some(Err::<UnSolvedPolyglotUse<Seq<int>>, AnaError>(AnaError))
        },
{
    reveal_strlit("eval");
    reveal_strlit("getMember");
    assert("eval"@.len() == 4);
    assert("getMember"@.len() == 9);
}

/// A list of found uses holds, in document order, the uses found at nodes of
/// the tree other than the root, one per node.
pub proof fn lemma_found_uses_in_order(us: Seq<UnSolvedPolyglotUse<Node>>, m: Nodes, text: Seq<u8>)
    requires
        lists_uses(us, m, text),
    ensures
        exists|ps: Seq<Seq<int>>|
            {
                &&& ps.len() == us.len()
                &&& forall|j: int|
                    0 <= j < ps.len() ==> m.contains_key(#[trigger] ps[j]) && ps[j]
                        != Seq::<int>::empty() && use_result(m, text, ps[j]) == Some(
                        Ok::<UnSolvedPolyglotUse<Seq<int>>, AnaError>(use_view(us[j])),
                    )
                &&& forall|j: int, k: int|
                    0 <= j < k < ps.len() ==> precedes(#[trigger] ps[j], #[trigger] ps[k])
            },
{
    let ps = choose|ps: Seq<Seq<int>>| #[trigger] lists_uses_at(us, ps, m, text);
    assert(ps.len() == us.len());
}

/// A node in the subtree of another covers part of its text.
pub proof fn lemma_subtree_range(m: Nodes, p: Seq<int>, q: Seq<int>)
    requires
        wf_nodes(m),
        m.contains_key(q),
        is_prefix(p, q),
    ensures
        start_of(m, p) <= start_of(m, q),
        end_of(m, q) <= end_of(m, p),
    decreases q.len(),
{
    if q.len() > p.len() {
        let r = q.drop_last();
        assert(m.contains_key(q.take(q.len() - 1)));
        assert(q.take(q.len() - 1) =~= r);
        lemma_subtree_range(m, p, r);
    } else {
        assert(p =~= q);
    }
}

} // verus!
