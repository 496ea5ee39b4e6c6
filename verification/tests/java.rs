use polyglot_java::cst::TreeSitterCST;
use polyglot_java::java::{AnaError, JavaBuilder, PolyglotKind, UnSolvedPolyglotUse};
use polyglot_java::preorder::PreOrder;
use polyglot_java::use_solver::{NoBuilder, Reference, ReferenceAnalysis, SolvingError};
use polyglot_java::Language;
use tree_sitter::{Node, Point, Tree};

fn main_wrap(main_content: &str) -> String {
    format!(
        "{}{}{}",
        r#"import java.io.File;

        import javax.naming.Context;
        import javax.xml.transform.Source;
        
        import org.graalvm.polyglot.Context;
        import org.graalvm.polyglot.Value;
        
        public class JavaTest2 {
            public static void main(String[] args) {"#,
        main_content,
        r#"}}"#
    )
}

fn parse(code: &str) -> Tree {
    let mut parser = tree_sitter::Parser::new();
    parser.set_language(tree_sitter_java::language()).unwrap();
    parser.parse(code, None).unwrap()
}

/// The body of `main`.
fn main_body(tree: &Tree) -> Node<'_> {
    let class = tree.root_node().child(5).unwrap();
    let meth = class.child(3).unwrap().child(1).unwrap();
    meth.child(4).unwrap()
}

#[test]
fn test_preorder_implem() {
    let main_content = r#"
        Context cx = Context.create();
        cx.eval("python", "print('hello')");
        "#;
    let file_content = main_wrap(main_content);
    let tree = parse(&file_content);
    let cst = TreeSitterCST::new(&tree, &file_content).unwrap();
    let _builder = JavaBuilder::init(cst);
    let mut pre_order = PreOrder::new(&tree);
    assert_eq!(pre_order.node().kind(), "program");
    assert_eq!(
        pre_order.next().map(|n| n.kind()),
        Some("import_declaration")
    );
}

#[test]
fn test_visit_function() {
    let main_content = r#"
        Context cx = Context.create();
        cx.eval("python", "print('hello')");
        "#;
    let file_content = main_wrap(main_content);
    let tree = parse(&file_content);
    let cst = TreeSitterCST::new(&tree, &file_content).unwrap();
    let mut pre_order = PreOrder::new(&tree);
    let nodes = PreOrder::visit(&mut pre_order, cst);
    assert_eq!(nodes.len(), 111);
}

struct MockedRefAna<'t> {
    tree: &'t Tree,
}

impl<'t> ReferenceAnalysis for MockedRefAna<'t> {
    type Reff = Reference<'t>;
    fn solve<'tr>(&'tr self, reference: &Self::Reff) -> Result<Node<'tr>, SolvingError> {
        if reference.0.start_position() == Point::new(13, 16)
            && reference.0.end_position() == Point::new(13, 23)
        {
            Ok(main_body(self.tree).child(2).unwrap())
        } else {
            panic!()
        }
    }
}

#[test]
fn test_polyglot_use() {
    let main_content = r#"
        Context cx = Context.create();

        Builder builder = Source.newBuilder("python", new File("TestSamples/pyprint.py"));
        cx.eval(builder.build());
        "#;
    let file_content = main_wrap(main_content);
    let tree = parse(&file_content);
    let cst = TreeSitterCST::new(&tree, &file_content).unwrap();
    let builder = &JavaBuilder::init(cst);
    let poly_eval = main_body(&tree).child(3).unwrap().child(0).unwrap();
    let found = builder.try_compute_polyglot_use(&poly_eval);
    assert_eq!(
        found,
        Some(Ok(UnSolvedPolyglotUse::EvalBuilder {
            name: poly_eval
                .child(3)
                .unwrap()
                .child(1)
                .unwrap()
                .child(0)
                .unwrap()
        },),)
    );
    let found = found.unwrap().unwrap();
    if let UnSolvedPolyglotUse::EvalBuilder { name } = found {
        let pending = NoBuilder {
            content: Reference(name),
        };
        let mocked_ref_ana = MockedRefAna { tree: &tree };
        let solved = pending.solve(&mocked_ref_ana).unwrap();
        assert_eq!(solved.content, main_body(&tree).child(2).unwrap());
    } else {
        panic!()
    }
}

#[test]
fn direct() {
    let main_content = r#"
        Context cx = Context.create();
        cx.eval("python", "print('hello')");
        "#;
    let file_content = main_wrap(main_content);
    let tree = parse(&file_content);
    let cst = TreeSitterCST::new(&tree, &file_content).unwrap();
    let builder = &JavaBuilder::init(cst);
    let poly_eval = main_body(&tree).child(2).unwrap().child(0).unwrap();
    let found = builder.try_compute_polyglot_use(&poly_eval);
    assert_eq!(
        found,
        Some(Ok(UnSolvedPolyglotUse::EvalSource {
            source: poly_eval,
            lang: Language::Python,
        },),)
    );
}

#[test]
fn direct2() {
    let main_content = r#"
        Context cx = Context.create();
        context.eval(Source.newBuilder("python", new File("TestSamples/pyprint.py")).build());
        "#;
    let file_content = main_wrap(main_content);
    let tree = parse(&file_content);
    let cst = TreeSitterCST::new(&tree, &file_content).unwrap();
    let builder = &JavaBuilder::init(cst);
    let poly_eval = main_body(&tree).child(2).unwrap().child(0).unwrap();
    // no argument form of the query matches a builder built in place: an error, no panic
    let found = builder.try_compute_polyglot_use(&poly_eval);
    assert_eq!(found, Some(Err(AnaError)));
}

#[test]
fn indirect() {
    let main_content = r#"
        Context cx = Context.create();

        Builder builder = Source.newBuilder("python", new File("TestSamples/pyprint.py"));
        context.eval(builder.build());
        "#;
    let file_content = main_wrap(main_content);
    let tree = parse(&file_content);
    let cst = TreeSitterCST::new(&tree, &file_content).unwrap();
    let builder = &JavaBuilder::init(cst);
    let poly_eval = main_body(&tree).child(2).unwrap().child(0).unwrap();
    let found = builder.try_compute_polyglot_use(&poly_eval);
    assert_eq!(found, None);
}

#[test]
fn indirect1() {
    let main_content = r#"
        Context cx = Context.create();

        Source source1 = Source.newBuilder("python", new File("TestSamples/pyprint.py")).build();
        context.eval(source1);
        "#;
    let file_content = main_wrap(main_content);
    let tree = parse(&file_content);
    let cst = TreeSitterCST::new(&tree, &file_content).unwrap();
    let builder = &JavaBuilder::init(cst);
    let poly_eval = main_body(&tree).child(2).unwrap().child(0).unwrap();
    let found = builder.try_compute_polyglot_use(&poly_eval);
    assert_eq!(found, None);
}

#[test]
fn indirect2() {
    let main_content = r#"
        Context cx = Context.create();

        File file1 = new File("TestSamples/pyprint.py");
        Source source1 = Source.newBuilder("python", file1).build();
        context.eval(source1);
        "#;
    let file_content = main_wrap(main_content);
    let tree = parse(&file_content);
    let cst = TreeSitterCST::new(&tree, &file_content).unwrap();
    let builder = &JavaBuilder::init(cst);
    // `context.eval(source1)` evaluates a source held in a variable, which is not
    // read yet: the search passes over it
    let finding = builder.find_polyglot_uses();
    assert!(finding.is_empty());
}

#[test]
fn find_uses_in_document_order() {
    let main_content = r#"
        Context cx = Context.create();
        cx.eval("js", "console.log(1)");
        Builder b = Source.newBuilder("python", "print(2)");
        cx.eval(b.build());
        cx.eval("python", "print(3)");
        "#;
    let file_content = main_wrap(main_content);
    let tree = parse(&file_content);
    let cst = TreeSitterCST::new(&tree, &file_content).unwrap();
    let builder = JavaBuilder::init(cst);
    let body = main_body(&tree);
    let first = body.child(2).unwrap().child(0).unwrap();
    let second = body.child(4).unwrap().child(0).unwrap();
    let third = body.child(5).unwrap().child(0).unwrap();
    let uses = builder.find_polyglot_uses();
    assert_eq!(
        uses,
        vec![
            UnSolvedPolyglotUse::EvalSource {
                source: first,
                lang: Language::JavaScript
            },
            UnSolvedPolyglotUse::EvalBuilder {
                name: second.child(3).unwrap().child(1).unwrap().child(0).unwrap()
            },
            UnSolvedPolyglotUse::EvalSource {
                source: third,
                lang: Language::Python
            },
        ]
    );
}

#[test]
fn find_uses_none() {
    let main_content = r#"
        int x = 1;
        "#;
    let file_content = main_wrap(main_content);
    let tree = parse(&file_content);
    let cst = TreeSitterCST::new(&tree, &file_content).unwrap();
    let builder = JavaBuilder::init(cst);
    assert!(builder.find_polyglot_uses().is_empty());
    assert!(builder.find_polyglot_exports().is_empty());
}

#[test]
fn eval_of_unknown_language_is_an_error() {
    let main_content = r#"
        cx.eval("cobol", "DISPLAY 1");
        "#;
    let file_content = main_wrap(main_content);
    let tree = parse(&file_content);
    let cst = TreeSitterCST::new(&tree, &file_content).unwrap();
    let builder = JavaBuilder::init(cst);
    let call = main_body(&tree).child(1).unwrap().child(0).unwrap();
    assert_eq!(builder.try_compute_polyglot_use(&call), Some(Err(AnaError)));
    assert!(builder.find_polyglot_uses().is_empty());
}

#[test]
fn get_member_is_an_error() {
    let main_content = r#"
        Value v = bindings.getMember("x");
        "#;
    let file_content = main_wrap(main_content);
    let tree = parse(&file_content);
    let cst = TreeSitterCST::new(&tree, &file_content).unwrap();
    let builder = JavaBuilder::init(cst);
    // local_variable_declaration > variable_declarator > method_invocation
    let decl = main_body(&tree).child(1).unwrap();
    let call = decl.child(1).unwrap().child(2).unwrap();
    assert_eq!(call.kind(), "method_invocation");
    assert_eq!(builder.try_compute_polyglot_use(&call), Some(Err(AnaError)));
}

#[test]
fn other_calls_are_not_polyglot() {
    let main_content = r#"
        Context cx = Context.create();
        "#;
    let file_content = main_wrap(main_content);
    let tree = parse(&file_content);
    let cst = TreeSitterCST::new(&tree, &file_content).unwrap();
    let builder = JavaBuilder::init(cst);
    let decl = main_body(&tree).child(1).unwrap();
    let call = decl.child(1).unwrap().child(2).unwrap();
    assert_eq!(call.kind(), "method_invocation");
    let name = builder.get_polyglot_call(&call).unwrap();
    assert_eq!(builder.node_to_code(&name), "create");
    assert_eq!(builder.try_compute_polyglot_use(&call), None);
    assert_eq!(builder.try_compute_polyglot_def(&call), None);
    assert_eq!(builder.get_polyglot_call(&decl), None);
}

#[test]
fn node_to_code_gives_the_node_text() {
    let file_content = main_wrap("cx.eval(\"python\", \"print(1)\");");
    let tree = parse(&file_content);
    let cst = TreeSitterCST::new(&tree, &file_content).unwrap();
    let call = main_body(&tree).child(1).unwrap().child(0).unwrap();
    assert_eq!(cst.node_to_code(&call), "cx.eval(\"python\", \"print(1)\")");
    assert_eq!(cst.node_to_code(&tree.root_node()), file_content.as_str());
}

#[test]
fn cst_refuses_a_text_shorter_than_the_tree() {
    let file_content = main_wrap("int x = 1;");
    let tree = parse(&file_content);
    assert!(TreeSitterCST::new(&tree, "int x").is_none());
    assert!(TreeSitterCST::new(&tree, &file_content).is_some());
}

#[test]
fn cst_refuses_ranges_inside_a_character() {
    let tree = parse("class A { }");
    // the keyword `class` ends at byte 5, inside the two bytes of "é" (4..6)
    assert!(TreeSitterCST::new(&tree, "clasé A { }").is_none());
    assert!(TreeSitterCST::new(&tree, "class A { }").is_some());
}

fn count_nodes(n: Node) -> usize {
    let mut total = 1;
    for i in 0..n.child_count() {
        total += count_nodes(n.child(i).unwrap());
    }
    total
}

#[test]
fn visit_yields_every_node_but_the_root_in_document_order() {
    let file_content = main_wrap("cx.eval(\"python\", \"print(1)\"); int y = 2 + 3;");
    let tree = parse(&file_content);
    let cst = TreeSitterCST::new(&tree, &file_content).unwrap();
    let mut walk = PreOrder::new(&tree);
    let nodes = walk.visit(cst);
    assert_eq!(nodes.len() + 1, count_nodes(tree.root_node()));
    for w in nodes.windows(2) {
        assert!(w[0].start_byte() <= w[1].start_byte());
        assert_ne!(w[0], w[1]);
    }
    assert_eq!(nodes[0], tree.root_node().child(0).unwrap());
    // an exhausted walk stays exhausted
    assert_eq!(walk.next(), None);
    assert_eq!(walk.next(), None);
}

#[test]
fn next_goes_down_then_across() {
    let tree = parse("class A { }");
    let mut walk = PreOrder::new(&tree);
    let root = tree.root_node();
    let class = root.child(0).unwrap();
    assert_eq!(walk.next(), Some(class));
    assert_eq!(walk.next(), Some(class.child(0).unwrap()));
    assert_eq!(walk.next(), Some(class.child(1).unwrap()));
    assert_eq!(walk.next(), Some(class.child(2).unwrap()));
    assert_eq!(walk.next(), Some(class.child(2).unwrap().child(0).unwrap()));
    assert_eq!(walk.next(), Some(class.child(2).unwrap().child(1).unwrap()));
    assert_eq!(walk.next(), None);
    assert_eq!(walk.node(), root);
}

#[test]
fn get_kind_of_each_use() {
    let tree = parse("class A { }");
    let n = tree.root_node();
    assert_eq!(UnSolvedPolyglotUse::EvalContext { name: n }.get_kind(), PolyglotKind::Eval);
    assert_eq!(UnSolvedPolyglotUse::EvalBuilder { name: n }.get_kind(), PolyglotKind::Eval);
    assert_eq!(
        UnSolvedPolyglotUse::EvalSource { source: n, lang: Language::Python }.get_kind(),
        PolyglotKind::Eval
    );
    assert_eq!(
        UnSolvedPolyglotUse::Eval { path: n, lang: Language::Java }.get_kind(),
        PolyglotKind::Eval
    );
    assert_eq!(
        UnSolvedPolyglotUse::Import { path: n, lang: Language::JavaScript }.get_kind(),
        PolyglotKind::Import
    );
}

#[test]
fn eval_of_a_builder_with_type_arguments() {
    let file_content = main_wrap("cx.eval(b.<Source>build());");
    let tree = parse(&file_content);
    let cst = TreeSitterCST::new(&tree, &file_content).unwrap();
    let builder = JavaBuilder::init(cst);
    let call = main_body(&tree).child(1).unwrap().child(0).unwrap();
    let inner = call.child(3).unwrap().child(1).unwrap();
    // the name `build` is child 3 here, after the type arguments
    assert_eq!(builder.node_to_code(&inner.child(3).unwrap()), "build");
    let b = inner.child(0).unwrap();
    assert_eq!(
        builder.try_compute_polyglot_use(&call),
        Some(Ok(UnSolvedPolyglotUse::EvalBuilder { name: b }))
    );
}

#[test]
fn eval_nested_in_an_eval_is_found() {
    let file_content = main_wrap("a.eval(b.eval(\"python\", \"x\"));");
    let tree = parse(&file_content);
    let cst = TreeSitterCST::new(&tree, &file_content).unwrap();
    let builder = JavaBuilder::init(cst);
    let outer = main_body(&tree).child(1).unwrap().child(0).unwrap();
    let inner = outer.child(3).unwrap().child(1).unwrap();
    assert_eq!(
        builder.try_compute_polyglot_use(&outer),
        Some(Ok(UnSolvedPolyglotUse::EvalSource { source: outer, lang: Language::Python }))
    );
    assert_eq!(
        builder.find_polyglot_uses(),
        vec![
            UnSolvedPolyglotUse::EvalSource { source: outer, lang: Language::Python },
            UnSolvedPolyglotUse::EvalSource { source: inner, lang: Language::Python },
        ]
    );
}

#[test]
fn eval_of_a_variable_is_an_error() {
    let file_content = main_wrap("cx.eval(src);");
    let tree = parse(&file_content);
    let cst = TreeSitterCST::new(&tree, &file_content).unwrap();
    let builder = JavaBuilder::init(cst);
    let call = main_body(&tree).child(1).unwrap().child(0).unwrap();
    assert_eq!(builder.try_compute_polyglot_use(&call), Some(Err(AnaError)));
}

#[test]
fn eval_whose_first_match_is_not_named_eval_is_an_error() {
    let file_content = main_wrap("cx.eval(y.evaluate(\"python\", \"x\"));");
    let tree = parse(&file_content);
    let cst = TreeSitterCST::new(&tree, &file_content).unwrap();
    let builder = JavaBuilder::init(cst);
    let call = main_body(&tree).child(1).unwrap().child(0).unwrap();
    assert_eq!(builder.try_compute_polyglot_use(&call), Some(Err(AnaError)));
}

#[test]
fn eval_use_from_match_reads_each_outcome() {
    let file_content = main_wrap("cx.eval(\"js\", \"1\");");
    let tree = parse(&file_content);
    let cst = TreeSitterCST::new(&tree, &file_content).unwrap();
    let builder = JavaBuilder::init(cst);
    let call = main_body(&tree).child(1).unwrap().child(0).unwrap();
    let name = call.child(2).unwrap();
    let args = call.child(3).unwrap();
    let lang = args.child(1).unwrap();
    let code = args.child(3).unwrap();
    assert_eq!(builder.eval_use_from_match(&call, Ok(None)), Err(AnaError));
    let caps = vec![
        ("name".to_string(), name),
        ("lang".to_string(), lang),
        ("code".to_string(), code),
    ];
    assert_eq!(
        builder.eval_use_from_match(&call, Ok(Some(caps))),
        Ok(UnSolvedPolyglotUse::EvalSource { source: call, lang: Language::JavaScript })
    );
    let caps = vec![("name".to_string(), name), ("indirect_build".to_string(), lang)];
    assert_eq!(
        builder.eval_use_from_match(&call, Ok(Some(caps))),
        Ok(UnSolvedPolyglotUse::EvalBuilder { name: lang })
    );
    let caps = vec![("name".to_string(), name), ("indirect".to_string(), lang)];
    assert_eq!(builder.eval_use_from_match(&call, Ok(Some(caps))), Err(AnaError));
    // the first capture must read `eval`
    let caps = vec![("name".to_string(), code), ("lang".to_string(), lang)];
    assert_eq!(builder.eval_use_from_match(&call, Ok(Some(caps))), Err(AnaError));
    // the language must be a known one
    let caps = vec![("name".to_string(), name), ("lang".to_string(), code)];
    assert_eq!(builder.eval_use_from_match(&call, Ok(Some(caps))), Err(AnaError));
}

#[test]
fn polyglot_def_is_none_on_other_calls() {
    let file_content = main_wrap("bindings.putMember(\"x\", 1);");
    let tree = parse(&file_content);
    let cst = TreeSitterCST::new(&tree, &file_content).unwrap();
    let builder = JavaBuilder::init(cst);
    let call = main_body(&tree).child(1).unwrap().child(0).unwrap();
    // the text of the whole call is not `putMember`
    assert_eq!(builder.try_compute_polyglot_def(&call), None);
}

#[test]
fn visit_is_the_same_whatever_text_it_is_handed() {
    let file_content = main_wrap("cx.eval(\"python\", \"print(1)\");");
    let tree = parse(&file_content);
    let other_tree = parse("class A { }");
    let cst = TreeSitterCST::new(&tree, &file_content).unwrap();
    let other_cst = TreeSitterCST::new(&other_tree, "class A { }").unwrap();
    let first = PreOrder::new(&tree).visit(cst);
    let second = PreOrder::new(&tree).visit(other_cst);
    assert_eq!(first, second);
}

#[test]
fn successive_next_calls_yield_every_node_but_the_root_once() {
    let file_content = main_wrap("cx.eval(b.build()); int y = 2 + 3;");
    let tree = parse(&file_content);
    let mut walk = PreOrder::new(&tree);
    let mut yielded = Vec::new();
    while let Some(n) = walk.next() {
        yielded.push(n);
    }
    assert_eq!(yielded.len() + 1, count_nodes(tree.root_node()));
    let mut again = PreOrder::new(&tree);
    assert_eq!(again.visit(TreeSitterCST::new(&tree, &file_content).unwrap()), yielded);
    assert_eq!(walk.next(), None);
}
