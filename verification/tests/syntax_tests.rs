use ogham::ast::{AstNode, Root};
use ogham::lexer::{lex, Token};
use ogham::parser::parse;
use ogham::syntax_kind::SyntaxKind;

#[test]
fn lexed_items_tile_the_source() {
    let src = "type T { string ☃ = 1; } // ok\n\"unterminated";
    let items = lex(src);
    let mut at = 0;
    for item in &items {
        let span = match item {
            Ok(t) => t.span.clone(),
            Err(span) => span.clone(),
        };
        assert_eq!(span.start, at);
        assert!(span.end > span.start);
        at = span.end;
    }
    assert_eq!(at, src.len());
}

#[test]
fn unexpected_characters_are_reported_first() {
    let src = "type T { ☃ }";
    let p = parse(src);
    assert!(!p.errors.is_empty());
    assert_eq!(p.errors[0].message, "unexpected character");
    assert_eq!(p.errors[0].range, 9..12);
    assert_eq!(p.syntax().text(), src);
}

#[test]
fn parse_is_lossless_on_garbage() {
    for src in ["", "@@ {{ }} << >>", "type { enum { oneof { @@ }}", "/* open comment", "\"x", "a\u{0}b", "é—日本"] {
        let p = parse(src);
        assert_eq!(p.syntax().text(), src);
        assert_eq!(p.syntax().kind(), SyntaxKind::Root);
    }
}

#[test]
fn tokens_of_tree_follow_lexer() {
    let src = "package p; // c\n";
    let p = parse(src);
    let root = p.syntax();
    let lexed: Vec<Token> = lex(src).into_iter().map(|r| r.unwrap().kind).collect();
    assert_eq!(lexed.len(), 7);
    assert_eq!(root.text_bytes(), src.as_bytes());
}

#[test]
fn field_number_parsing_follows_u32_from_str() {
    let root = Root::cast(parse("type T { string a = 4294967295; string b = 4294967296; string c = 007; }").syntax()).unwrap();
    let fields = root.type_decls()[0].body().unwrap().fields();
    assert_eq!(fields[0].field_number(), Some(4294967295));
    assert_eq!(fields[1].field_number(), None);
    assert_eq!(fields[2].field_number(), Some(7));
}

#[test]
fn annotations_precede_declarations() {
    let root = Root::cast(parse("@a::B(x=1) @reserved(3) type T { }").syntax()).unwrap();
    let t = &root.type_decls()[0];
    let anns = t.annotations();
    assert_eq!(anns.len(), 2);
    assert_eq!(anns[0].library_name(), Some(("a".to_string(), "B".to_string())));
    assert!(!anns[0].is_builtin());
    assert!(anns[1].is_builtin());
    assert_eq!(anns[1].builtin_name().unwrap().text(), "reserved");
    let args = anns[0].args().unwrap().args();
    assert_eq!(args.len(), 1);
    assert_eq!(args[0].name().unwrap().text(), "x");
}

#[test]
fn root_has_no_preceding_annotations() {
    let root = Root::cast(parse("type T {}").syntax()).unwrap();
    assert_eq!(root.type_decls()[0].annotations().len(), 0);
}

#[test]
fn import_path_and_alias_text() {
    let root = Root::cast(parse("import github.com/org/db as mydb;").syntax()).unwrap();
    let imp = &root.imports()[0];
    assert_eq!(imp.path().unwrap().text(), "github.com/org/db");
    assert_eq!(imp.alias().unwrap().text(), "mydb");
}

#[test]
fn rpc_params_and_map_parts() {
    let root = Root::cast(parse("service S { rpc Get(stream Req) -> void; } type T { map<string, int> m = 1; }").syntax()).unwrap();
    let rpc = &root.service_decls()[0].rpcs()[0];
    assert!(rpc.input().unwrap().is_stream());
    assert!(rpc.output().unwrap().is_void());
    let tr = root.type_decls()[0].body().unwrap().fields()[0].type_ref().unwrap();
    let map = tr.map_type().unwrap();
    assert_eq!(map.types().len(), 2);
    assert_eq!(map.key_type().unwrap().qualified_name().unwrap().text(), "string");
    assert_eq!(map.value_type().unwrap().qualified_name().unwrap().text(), "int");
}

#[test]
fn shape_injection_names_and_range() {
    let root = Root::cast(parse("type U { api.Page(1..2) }").syntax()).unwrap();
    let inj = &root.type_decls()[0].body().unwrap().shape_injections()[0];
    assert_eq!(inj.full_name(), "api.Page");
    assert_eq!(inj.range_start(), Some(1));
    assert_eq!(inj.range_end(), Some(2));
    // A keyword segment is not an identifier, so the dotted text skips it.
    let root = Root::cast(parse("type U { rpc.Page(1..2) }").syntax()).unwrap();
    let inj = &root.type_decls()[0].body().unwrap().shape_injections()[0];
    assert_eq!(inj.full_name(), "Page");
}

#[test]
fn structural_keywords_are_the_declaration_keywords() {
    for k in [
        SyntaxKind::KwType,
        SyntaxKind::KwShape,
        SyntaxKind::KwEnum,
        SyntaxKind::KwOneof,
        SyntaxKind::KwService,
        SyntaxKind::KwRpc,
        SyntaxKind::KwAnnotation,
        SyntaxKind::KwPackage,
        SyntaxKind::KwImport,
        SyntaxKind::KwFor,
        SyntaxKind::KwAs,
    ] {
        assert!(k.is_structural_keyword());
    }
    for k in [SyntaxKind::KwStream, SyntaxKind::KwPick, SyntaxKind::KwOmit, SyntaxKind::KwMap, SyntaxKind::KwVoid] {
        assert!(!k.is_structural_keyword());
        assert!(k.is_keyword());
    }
}
