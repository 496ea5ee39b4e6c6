use polyglot_java::text::{language_string_to_enum, str_eq, strip_quotes, InvalidArgumentError};
use polyglot_java::use_solver::{NoSource, PolygloteSource, SolvingError};
use polyglot_java::Language;
use std::path::PathBuf;

fn parse(code: &str) -> tree_sitter::Tree {
    let mut parser = tree_sitter::Parser::new();
    parser.set_language(tree_sitter_java::language()).unwrap();
    parser.parse(code, None).unwrap()
}

#[test]
fn strip_quotes_drops_first_and_last_character() {
    assert_eq!(strip_quotes("\"python\""), "python");
    assert_eq!(strip_quotes("'é'"), "é");
    assert_eq!(strip_quotes("ab"), "");
    assert_eq!(strip_quotes("a"), "");
    assert_eq!(strip_quotes(""), "");
}

#[test]
fn language_names() {
    assert_eq!(language_string_to_enum("python"), Ok(Language::Python));
    assert_eq!(language_string_to_enum("js"), Ok(Language::JavaScript));
    assert_eq!(language_string_to_enum("javascript"), Ok(Language::JavaScript));
    assert_eq!(language_string_to_enum("java"), Ok(Language::Java));
    assert_eq!(language_string_to_enum("Python"), Err(InvalidArgumentError));
    assert_eq!(language_string_to_enum("\"python\""), Err(InvalidArgumentError));
    assert_eq!(language_string_to_enum(""), Err(InvalidArgumentError));
}

#[test]
fn text_equality() {
    assert!(str_eq("eval", "eval"));
    assert!(!str_eq("eval", "evaluate"));
    assert!(!str_eq("é", "e"));
}

#[test]
fn resolutions_keep_the_node_or_the_error() {
    let tree = parse("class A { }");
    let root = tree.root_node();
    let solved = NoSource::resolved(Ok(root)).unwrap();
    assert_eq!(solved.content, root);
    assert!(NoSource::resolved(Err(SolvingError)).is_err());

    let with_lang = PolygloteSource::with_language(Ok(root), String::from("print(1)")).unwrap();
    assert_eq!(with_lang.language, root);
    assert_eq!(with_lang.code(), "print(1)");
    assert!(PolygloteSource::with_language(Err(SolvingError), 3u8).is_err());

    let with_code = PolygloteSource::with_code(Language::Python, Ok(root)).unwrap();
    assert_eq!(*with_code.lang(), Language::Python);
    assert_eq!(with_code.code, root);
    assert!(PolygloteSource::with_code(Language::Java, Err(SolvingError)).is_err());
}

#[test]
fn polyglot_source_getters() {
    let file = PolygloteSource {
        language: Language::JavaScript,
        code: PathBuf::from("TestSamples/app.js"),
    };
    assert_eq!(*file.lang(), Language::JavaScript);
    assert_eq!(file.code(), &PathBuf::from("TestSamples/app.js"));
    let text = PolygloteSource {
        language: Language::Python,
        code: String::from("print(42)"),
    };
    assert_eq!(*text.lang(), Language::Python);
    assert_eq!(text.code(), "print(42)");
}
